use bittorrent::bencode::model::BencodeError;
use bittorrent::peers::{
    announce_url, check_status, IpAddress, Peer, PeerID, PeerResponse, Peers, TrackerError,
};
use bittorrent::torrent::{InfoHash, PeerRequest};

const RESPONSE: &[u8] = b"d8:completei4e10:incompletei1e8:intervali60e12:min intervali60e5:peers18:\xa5\xe8)I\xc9d\xa5\xe8&\xa4\xc9L\xa5\xe8#r\xc8\xede";

#[test]
fn test_decode_peers() {
    let response: PeerResponse = PeerResponse::parse(RESPONSE).unwrap();

    let has_data = response.peers.len() > 0;
    assert_eq!(true, has_data);
}

#[test]
fn compact_peers_are_read_in_order() {
    let response = PeerResponse::parse(RESPONSE).unwrap();
    assert_eq!(response.peers.len(), 18);
    let peers = Peers::from_peer_response(response).unwrap();
    assert_eq!(peers.len(), 3);
    assert_eq!(peers.get(0), Some(Peer::new(IpAddress::V4([165, 232, 41, 73]), 51556)));
    assert_eq!(peers.get(1).unwrap().to_string(), "165.232.38.164:51532");
    assert_eq!(peers.get(2).unwrap().to_string(), "165.232.35.114:51437");
    assert_eq!(peers.get(3), None);
    assert_eq!(
        peers.to_string(),
        "165.232.41.73:51556\n165.232.38.164:51532\n165.232.35.114:51437\n"
    );
    assert_eq!(peers.into_vec().len(), 3);
}

#[test]
fn compact_peer_has_six_bytes() {
    let p = Peer::from_bytes(&[1, 2, 3, 4, 0x1a, 0xe1]).unwrap();
    assert_eq!(p.address(), IpAddress::V4([1, 2, 3, 4]));
    assert_eq!(p.port_number(), 6881);
    assert_eq!(p.to_string(), "1.2.3.4:6881");
    assert_eq!(Peer::from_bytes(&[1, 2, 3, 4, 5]).unwrap_err(), TrackerError::BadPeerList);
    assert_eq!(Peer::from_bytes(&[1, 2, 3, 4, 5, 6, 7]).unwrap_err(), TrackerError::BadPeerList);
    assert_eq!(Peer::from_bytes(&[]).unwrap_err(), TrackerError::BadPeerList);
    assert_eq!(Peer::from_bytes(&[0, 0, 0, 0, 0, 0]).unwrap().to_string(), "0.0.0.0:0");
    assert_eq!(
        Peer::from_bytes(&[255, 255, 255, 255, 255, 255]).unwrap().to_string(),
        "255.255.255.255:65535"
    );
}

#[test]
fn peer_list_has_whole_records() {
    let err = Peers::from_peer_response(PeerResponse { peers: vec![0; 7] }).unwrap_err();
    assert_eq!(err, TrackerError::BadPeerList);
    let none = Peers::from_peer_response(PeerResponse { peers: vec![] }).unwrap();
    assert_eq!(none.len(), 0);
    assert_eq!(none.to_string(), "");
}

#[test]
fn ipv6_peer_as_text() {
    let p = Peer::new(IpAddress::V6([0x2001, 0xdb8, 0, 0, 0, 0, 0xff00, 1]), 80);
    assert_eq!(p.to_string(), "2001:db8:0:0:0:0:ff00:1:80");
}

#[test]
fn tracker_failure_is_surfaced() {
    assert_eq!(
        PeerResponse::parse(b"d14:failure reason12:unregisterede").unwrap_err(),
        TrackerError::Failure(b"unregistered".to_vec())
    );
    assert_eq!(
        PeerResponse::parse(b"d14:failure reason3:bad5:peers0:e").unwrap_err(),
        TrackerError::Failure(b"bad".to_vec())
    );
}

#[test]
fn tracker_answers_that_are_malformed() {
    assert_eq!(
        PeerResponse::parse(b"d5:peers").unwrap_err(),
        TrackerError::Bencode(BencodeError::TruncatedInput)
    );
    assert_eq!(PeerResponse::parse(b"i1e").unwrap_err(), TrackerError::NotADictionary);
    assert_eq!(PeerResponse::parse(b"de").unwrap_err(), TrackerError::MissingPeers);
    assert_eq!(PeerResponse::parse(b"d5:peersi1ee").unwrap_err(), TrackerError::WrongType);
    assert_eq!(
        PeerResponse::parse(b"d14:failure reasoni1e5:peers6:abcdefe").unwrap().peers,
        b"abcdef".to_vec()
    );
}

#[test]
fn http_status() {
    assert_eq!(check_status(200), Ok(()));
    assert_eq!(check_status(299), Ok(()));
    assert_eq!(check_status(199), Err(TrackerError::HttpStatus(199)));
    assert_eq!(check_status(300), Err(TrackerError::HttpStatus(300)));
    assert_eq!(check_status(404), Err(TrackerError::HttpStatus(404)));
}

#[test]
fn peer_id_is_twenty_letters_and_digits() {
    for _ in 0..20 {
        let id = PeerID::new();
        assert_eq!(id.to_string().len(), 20);
        assert_eq!(id.as_bytes().len(), 20);
        assert!(id.to_string().chars().all(|c| c.is_ascii_alphanumeric()));
        assert_eq!(id.as_bytes(), id.to_string().as_bytes());
        assert_eq!(id.clone().to_string(), id.to_string());
    }
    assert_ne!(PeerID::new().to_string(), PeerID::new().to_string());
}

#[test]
fn peer_id_from_text() {
    let id = PeerID::from_text("00112233445566778899").unwrap();
    assert_eq!(id.to_string(), "00112233445566778899");
    assert_eq!(id.as_bytes(), b"00112233445566778899");
    assert!(PeerID::from_text("0011223344556677889").is_none());
    assert!(PeerID::from_text("001122334455667788990").is_none());
    assert!(PeerID::from_text("0011223344556677889\u{e9}").is_none());
    assert!(PeerID::from_text("-TR2940-k8hj0wgej6ch").is_some());
}

#[test]
fn announce_url_for_the_sample_torrent() {
    let hash = InfoHash::new([
        0xd6, 0x9f, 0x91, 0xe6, 0xb2, 0xae, 0x4c, 0x54, 0x24, 0x68, 0xd1, 0x07, 0x3a, 0x71, 0xd4,
        0xea, 0x13, 0x87, 0x9a, 0x7f,
    ]);
    let req = PeerRequest {
        url: "http://bittorrent-test-tracker.codecrafters.io/announce".to_string(),
        info_hash: &hash,
        length: 92063,
    };
    let id = PeerID::from_text("00112233445566778899").unwrap();
    assert_eq!(
        announce_url(&req, &id),
        "http://bittorrent-test-tracker.codecrafters.io/announce?info_hash=%D6%9F%91%E6%B2%AELT%24h%D1%07%3Aq%D4%EA%13%87%9A%7F&peer_id=00112233445566778899&port=6881&uploaded=0&downloaded=0&left=92063&compact=1"
    );
}

#[test]
fn announce_url_encodes_the_peer_id() {
    let hash = InfoHash::new([b'a'; 20]);
    let req = PeerRequest { url: "http://t/a".to_string(), info_hash: &hash, length: 0 };
    let id = PeerID::from_text("-TR2940-k8hj0 gej6c/").unwrap();
    assert_eq!(
        announce_url(&req, &id),
        "http://t/a?info_hash=aaaaaaaaaaaaaaaaaaaa&peer_id=-TR2940-k8hj0%20gej6c%2F&port=6881&uploaded=0&downloaded=0&left=0&compact=1"
    );
}

#[test]
fn peers_one_after_another() {
    let peers = Peers::from_vec(vec![
        Peer::new(IpAddress::V4([10, 0, 0, 1]), 1),
        Peer::new(IpAddress::V4([10, 0, 0, 2]), 2),
    ]);
    let ports: Vec<u16> = peers.iter().map(|p| p.port_number()).collect();
    assert_eq!(ports, vec![1, 2]);
    assert_eq!(peers.iter().next().unwrap().to_string(), "10.0.0.1:1");
}
