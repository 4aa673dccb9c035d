//! Core of a single-file BitTorrent downloader: the bencode codec, the torrent
//! model, the tracker announce, peer-wire framing, block scheduling and piece
//! dispatch, with every function's behaviour stated as a contract.

pub mod bencode;
pub mod text;
pub mod torrent;
pub mod peers;
pub mod wire;
pub mod blocks;
pub mod download;
pub mod dispatch;
pub mod session;
