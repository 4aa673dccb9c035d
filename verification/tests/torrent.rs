use bittorrent::bencode::model::BencodeError;
use bittorrent::torrent::{
    count_pieces, DownloadRequest, FileInfo, Info, InfoHash, PieceHash, Torrent, TorrentError,
    TorrentFile,
};
use sha1::{Digest, Sha1};

fn unhex(text: &str) -> Vec<u8> {
    (0..text.len() / 2)
        .map(|i| u8::from_str_radix(&text[2 * i..2 * i + 2], 16).unwrap())
        .collect()
}

const PIECE_HASHES: [&str; 3] = [
    "e876f67a2a8886e8f36b136726c30fa29703022d",
    "6e2275e604a0766656736e81ff10b55204ad8d35",
    "f00d937a0213df1982bc8d097227ad9e909acc17",
];

const SAMPLE_INFO_HASH: &str = "d69f91e6b2ae4c542468d1073a71d4ea13879a7f";

fn sample_info() -> Vec<u8> {
    let mut info = b"d6:lengthi92063e4:name10:sample.txt12:piece lengthi32768e6:pieces60:".to_vec();
    for h in PIECE_HASHES {
        info.extend_from_slice(&unhex(h));
    }
    info.push(b'e');
    info
}

fn sample_torrent() -> Vec<u8> {
    let mut file =
        b"d8:announce55:http://bittorrent-test-tracker.codecrafters.io/announce10:created by13:mktorrent 1.14:info"
            .to_vec();
    file.extend_from_slice(&sample_info());
    file.push(b'e');
    file
}

#[test]
fn test_torrent() {
    let torrent_file = TorrentFile::parse(&sample_torrent()).unwrap();
    let torrent = Torrent::from_file_torrent(&torrent_file).unwrap();
    let text = torrent.to_string();
    println!("{}", text);
    assert_eq!(
        text,
        format!(
            "Tracker URL: http://bittorrent-test-tracker.codecrafters.io/announce\nLength: 92063\nInfo Hash {}\nPiece Length: 32768\nPiece Hashes\n{}\n{}\n{}\n\n",
            SAMPLE_INFO_HASH, PIECE_HASHES[0], PIECE_HASHES[1], PIECE_HASHES[2]
        )
    );
}

#[test]
fn sample_torrent_fields() {
    let file = TorrentFile::parse(&sample_torrent()).unwrap();
    assert_eq!(
        file.tracker_url,
        "http://bittorrent-test-tracker.codecrafters.io/announce"
    );
    assert_eq!(file.created_by, Some("mktorrent 1.1".to_string()));
    assert_eq!(file.info.length, 92063);
    assert_eq!(file.info.name, "sample.txt");
    assert_eq!(file.info.piece_length, 32768);
    assert_eq!(file.info.pieces.len(), 60);
    assert_eq!(file.info.raw, sample_info());
}

#[test]
fn sample_info_hash_is_the_published_one() {
    let file = TorrentFile::parse(&sample_torrent()).unwrap();
    let torrent = Torrent::from_file_torrent(&file).unwrap();
    let request = torrent.to_peer_request();
    assert_eq!(request.info_hash.get_hash().to_vec(), unhex(SAMPLE_INFO_HASH));
    assert_eq!(request.info_hash.to_hex(), SAMPLE_INFO_HASH);
    assert_eq!(request.length, 92063);
    assert_eq!(
        request.url,
        "http://bittorrent-test-tracker.codecrafters.io/announce"
    );
}

#[test]
fn info_hash_is_taken_from_the_bytes_as_written() {
    // the keys of `info` stand in another order than the canonical one
    let mut info = b"d4:name1:x6:lengthi1e12:piece lengthi1e6:pieces20:".to_vec();
    info.extend_from_slice(&[7u8; 20]);
    info.push(b'e');
    let mut file = b"d8:announce10:http://a/b4:info".to_vec();
    file.extend_from_slice(&info);
    file.push(b'e');
    let parsed = TorrentFile::parse(&file).unwrap();
    assert_eq!(parsed.created_by, None);
    assert_eq!(parsed.info.raw, info);
    let torrent = Torrent::from_file_torrent(&parsed).unwrap();
    let expected: [u8; 20] = Sha1::digest(&info).into();
    assert_eq!(torrent.to_peer_request().info_hash.get_hash(), &expected);
}

#[test]
fn sample_piece_count_and_lengths() {
    assert_eq!(count_pieces(92063, 32768), 3);
    let file = TorrentFile::parse(&sample_torrent()).unwrap();
    let torrent = Torrent::from_file_torrent(&file).unwrap();
    let req = torrent.to_download_request();
    assert_eq!(req.pieces.len(), 3);
    assert_eq!(req.length, 92063);
    assert_eq!(req.piece_length, 32768);
    assert_eq!(req.last_piece_len(), 26527);
    assert_eq!(req.piece_len(0), 32768);
    assert_eq!(req.piece_len(1), 32768);
    assert_eq!(req.piece_len(2), 26527);
    for (i, h) in PIECE_HASHES.iter().enumerate() {
        assert_eq!(req.pieces[i].to_hex(), *h);
        assert_eq!(req.pieces[i], PieceHash::new(unhex(h)));
    }
    assert_eq!(req.info_hash.to_hex(), SAMPLE_INFO_HASH);
}

#[test]
fn piece_count_identity() {
    for (l, p) in [(1usize, 1usize), (1, 5), (5, 5), (6, 5), (10, 5), (11, 5), (92063, 32768), (65536, 32768)] {
        let n = count_pieces(l, p);
        assert_eq!(n, (l + p - 1) / p);
        let last = l - (n - 1) * p;
        assert!(0 < last && last <= p);
        assert_eq!(last, (l - 1) % p + 1);
    }
    assert_eq!(count_pieces(0, 5), 0);
}

fn info_with(length: usize, piece_length: usize, hashes: usize) -> FileInfo {
    FileInfo {
        length,
        name: "x".to_string(),
        piece_length,
        pieces: vec![1u8; hashes],
        raw: b"de".to_vec(),
    }
}

#[test]
fn inconsistent_lengths_are_refused() {
    assert!(Info::from_file_info(&info_with(10, 5, 40)).is_ok());
    assert_eq!(Info::from_file_info(&info_with(11, 5, 40)).unwrap_err(), TorrentError::Invariant);
    assert_eq!(Info::from_file_info(&info_with(10, 5, 60)).unwrap_err(), TorrentError::Invariant);
    assert_eq!(Info::from_file_info(&info_with(10, 5, 39)).unwrap_err(), TorrentError::Invariant);
    assert_eq!(Info::from_file_info(&info_with(0, 5, 0)).unwrap_err(), TorrentError::Invariant);
    assert_eq!(Info::from_file_info(&info_with(10, 0, 40)).unwrap_err(), TorrentError::Invariant);
}

#[test]
fn info_text_lists_every_field() {
    let info = Info::from_file_info(&info_with(10, 5, 40)).unwrap();
    let digest: [u8; 20] = Sha1::digest(b"de").into();
    assert_eq!(
        info.to_string(),
        format!(
            "Length: 10\nInfo Hash {}\nPiece Length: 5\nPiece Hashes\n{}\n{}\n",
            InfoHash::new(digest).to_hex(),
            "01".repeat(20),
            "01".repeat(20)
        )
    );
}

#[test]
fn malformed_metainfo_is_refused() {
    assert_eq!(
        TorrentFile::parse(b"").unwrap_err(),
        TorrentError::Bencode(BencodeError::TruncatedInput)
    );
    assert_eq!(TorrentFile::parse(b"le").unwrap_err(), TorrentError::NotADictionary);
    assert_eq!(TorrentFile::parse(b"de").unwrap_err(), TorrentError::MissingKey);
    assert_eq!(
        TorrentFile::parse(b"d8:announcei1ee").unwrap_err(),
        TorrentError::WrongType
    );
    assert_eq!(
        TorrentFile::parse(b"d8:announce2:\xff\xfee").unwrap_err(),
        TorrentError::WrongType
    );
    assert_eq!(
        TorrentFile::parse(b"d8:announce1:ae").unwrap_err(),
        TorrentError::MissingKey
    );
    assert_eq!(
        TorrentFile::parse(b"d8:announce1:a4:infolee").unwrap_err(),
        TorrentError::NotADictionary
    );
    assert_eq!(
        TorrentFile::parse(b"d8:announce1:a4:infod6:lengthi-1eee").unwrap_err(),
        TorrentError::WrongType
    );
    assert_eq!(
        TorrentFile::parse(b"d8:announce1:a4:infod6:lengthi1eee").unwrap_err(),
        TorrentError::MissingKey
    );
    assert_eq!(
        FileInfo::parse(b"d6:lengthi1e4:name1:x12:piece lengthi1e6:piecesi0ee").unwrap_err(),
        TorrentError::WrongType
    );
}

#[test]
fn announce_has_to_be_a_url() {
    let mut file = b"d8:announce9:not a url4:info".to_vec();
    file.extend_from_slice(&sample_info());
    file.push(b'e');
    let parsed = TorrentFile::parse(&file).unwrap();
    assert_eq!(Torrent::from_file_torrent(&parsed).unwrap_err(), TorrentError::InvalidUrl);
}

#[test]
fn url_is_written_as_the_url_crate_writes_it() {
    let mut file = b"d8:announce18:HTTP://Example.COM4:info".to_vec();
    file.extend_from_slice(&sample_info());
    file.push(b'e');
    let parsed = TorrentFile::parse(&file).unwrap();
    let torrent = Torrent::from_file_torrent(&parsed).unwrap();
    assert_eq!(torrent.to_peer_request().url, "http://example.com/");
}

#[test]
fn hashes_in_hex() {
    let h = InfoHash::new([0xab; 20]);
    assert_eq!(h.to_hex(), "ab".repeat(20));
    assert_eq!(h.get_hash(), &[0xab; 20]);
    assert_eq!(h.clone().get_hash(), &[0xab; 20]);
    let p = PieceHash::new(vec![0x00, 0x0f, 0xf0, 0xff, 0x9a]);
    assert_eq!(p.to_hex(), "000ff0ff9a");
    assert_eq!(bittorrent::text::hash_to_hex(&[]), "");
}

#[test]
fn piece_hash_is_sha1() {
    let h = PieceHash::hash(&b"hello world".to_vec());
    assert_eq!(h.to_hex(), "2aae6c35c94fcfb415dbe95f408b9ce91ee846ed");
    assert_eq!(h, PieceHash::new(unhex("2aae6c35c94fcfb415dbe95f408b9ce91ee846ed")));
    assert_ne!(h, PieceHash::new(b"hello world".to_vec()));
    assert_ne!(h, PieceHash::hash(&b"hello worle".to_vec()));
    assert_eq!(
        PieceHash::hash(&Vec::new()).to_hex(),
        "da39a3ee5e6b4b0d3255bfef95601890afd80709"
    );
}

#[test]
fn download_request_is_checked() {
    let hash = InfoHash::new([0; 20]);
    let two = vec![PieceHash::new(vec![1; 20]), PieceHash::new(vec![2; 20])];
    let ok = DownloadRequest { length: 10, piece_length: 5, pieces: &two, info_hash: &hash };
    assert!(ok.check());
    let more = DownloadRequest { length: 11, piece_length: 5, pieces: &two, info_hash: &hash };
    assert!(!more.check());
    let empty = DownloadRequest { length: 0, piece_length: 5, pieces: &[], info_hash: &hash };
    assert!(!empty.check());
    let unit = DownloadRequest { length: 10, piece_length: 0, pieces: &two, info_hash: &hash };
    assert!(!unit.check());
    let short = vec![PieceHash::new(vec![1; 20]), PieceHash::new(vec![2; 19])];
    let bad = DownloadRequest { length: 10, piece_length: 5, pieces: &short, info_hash: &hash };
    assert!(!bad.check());
}
