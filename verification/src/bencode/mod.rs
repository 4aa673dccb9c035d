//! Bencode: the length-prefixed, four-kind serialization format.

pub mod model;
pub mod grammar;
pub mod decode;
pub mod encode;
pub mod laws;
