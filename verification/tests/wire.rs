use bittorrent::peers::PeerID;
use bittorrent::torrent::InfoHash;
use bittorrent::wire::{
    Handshake, PeerMessage, PeerMessageReader, PiecePayload, RequestPayload, WireError,
    BLOCK_SIZE, HANDSHAKE_BYTE_SIZE, MAX_PAYLOAD_LEN,
};

fn sample_hash() -> InfoHash {
    InfoHash::new([
        0xd6, 0x9f, 0x91, 0xe6, 0xb2, 0xae, 0x4c, 0x54, 0x24, 0x68, 0xd1, 0x07, 0x3a, 0x71, 0xd4,
        0xea, 0x13, 0x87, 0x9a, 0x7f,
    ])
}

#[test]
fn test_piece_payload_from_bytes() {
    let mut piece_bytes: Vec<u8> = Vec::new();
    piece_bytes.extend_from_slice(&0u32.to_be_bytes());
    piece_bytes.extend_from_slice(&0u32.to_be_bytes());
    let random_data: Vec<u8> = (0..16384).map(|_| rand::random::<u8>()).collect();
    piece_bytes.extend_from_slice(&random_data);
    PiecePayload::from_bytes(&piece_bytes).unwrap();

    let mut smaller_piece_bytes: Vec<u8> = Vec::new();
    smaller_piece_bytes.extend_from_slice(&0u32.to_be_bytes());
    smaller_piece_bytes.extend_from_slice(&0u32.to_be_bytes());
    let random_data: Vec<u8> = (0..1337).map(|_| rand::random::<u8>()).collect();
    smaller_piece_bytes.extend_from_slice(&random_data);
    PiecePayload::from_bytes(&smaller_piece_bytes).unwrap();
}

#[test]
fn constants() {
    assert_eq!(HANDSHAKE_BYTE_SIZE, 68);
    assert_eq!(BLOCK_SIZE, 16 * 1024);
    assert_eq!(MAX_PAYLOAD_LEN, 1048576);
}

#[test]
fn handshake_layout() {
    let id = PeerID::from_text("00112233445566778899").unwrap();
    let bytes = Handshake::new(&sample_hash(), &id).to_bytes();
    assert_eq!(bytes.len(), 68);
    assert_eq!(bytes[0], 19);
    assert_eq!(&bytes[1..20], b"BitTorrent protocol");
    assert_eq!(&bytes[20..28], &[0u8; 8]);
    assert_eq!(&bytes[28..48], sample_hash().get_hash());
    assert_eq!(&bytes[48..68], b"00112233445566778899");
}

fn recorded_reply() -> [u8; 68] {
    let mut reply = [0u8; 68];
    reply[0] = 19;
    reply[1..20].copy_from_slice(b"BitTorrent protocol");
    reply[25] = 0x10;
    reply[28..48].copy_from_slice(sample_hash().get_hash());
    for i in 0..20 {
        reply[48 + i] = 0xa0 + i as u8;
    }
    reply
}

#[test]
fn handshake_replay() {
    let reply = recorded_reply();
    let h = Handshake::from_reply(reply, &sample_hash()).unwrap();
    assert_eq!(h.peer_id_bytes().as_slice(), &reply[48..68]);
    assert_eq!(
        h.to_string(),
        "Peer ID: a0a1a2a3a4a5a6a7a8a9aaabacadaeafb0b1b2b3\n"
    );

    let mut other = reply;
    other[28] ^= 1;
    assert_eq!(
        Handshake::from_reply(other, &sample_hash()).unwrap_err(),
        WireError::HandshakeMismatch
    );
    let mut last = reply;
    last[47] ^= 0x80;
    assert_eq!(
        Handshake::from_reply(last, &sample_hash()).unwrap_err(),
        WireError::HandshakeMismatch
    );
}

#[test]
fn handshake_with_another_protocol_is_refused() {
    let mut reply = recorded_reply();
    reply[0] = 18;
    assert_eq!(Handshake::from_bytes(reply).unwrap_err(), WireError::HandshakeMismatch);
    let mut reply = recorded_reply();
    reply[19] = b'L';
    assert_eq!(Handshake::from_bytes(reply).unwrap_err(), WireError::HandshakeMismatch);
    assert_eq!(
        Handshake::from_reply(reply, &sample_hash()).unwrap_err(),
        WireError::HandshakeMismatch
    );
    assert!(Handshake::from_bytes(recorded_reply()).is_ok());
}

#[test]
fn handshake_round_trip() {
    let id = PeerID::from_text("abcdefghijklmnopqrst").unwrap();
    let sent = Handshake::new(&sample_hash(), &id).to_bytes();
    let back = Handshake::from_reply(sent, &sample_hash()).unwrap();
    assert_eq!(back.peer_id_bytes().as_slice(), b"abcdefghijklmnopqrst");
    assert_eq!(back.to_bytes(), sent);
}

#[test]
fn messages_as_frames() {
    assert_eq!(PeerMessage::Choke.to_bytes(), vec![0, 0, 0, 1, 0]);
    assert_eq!(PeerMessage::Unchoke.to_bytes(), vec![0, 0, 0, 1, 1]);
    assert_eq!(PeerMessage::Interested.to_bytes(), vec![0, 0, 0, 1, 2]);
    assert_eq!(PeerMessage::Bitfield.to_bytes(), vec![0, 0, 0, 1, 5]);
    assert_eq!(
        PeerMessage::Have(0x01020304).to_bytes(),
        vec![0, 0, 0, 5, 4, 1, 2, 3, 4]
    );
    let r = RequestPayload { index: 1, begin: 16384, length: 0x4000 };
    assert_eq!(
        PeerMessage::Request(r).to_bytes(),
        vec![0, 0, 0, 13, 6, 0, 0, 0, 1, 0, 0, 0x40, 0, 0, 0, 0x40, 0]
    );
    assert_eq!(
        PeerMessage::Cancel(r).to_bytes(),
        vec![0, 0, 0, 13, 8, 0, 0, 0, 1, 0, 0, 0x40, 0, 0, 0, 0x40, 0]
    );
    let p = PiecePayload { index: 2, begin: 3, block: vec![9, 8, 7] };
    assert_eq!(
        PeerMessage::Piece(p).to_bytes(),
        vec![0, 0, 0, 12, 7, 0, 0, 0, 2, 0, 0, 0, 3, 9, 8, 7]
    );
}

#[test]
fn request_payload_bytes() {
    let r = RequestPayload { index: 0xdeadbeef, begin: 0, length: u32::MAX };
    let mut out = vec![1u8];
    r.append_bytes(&mut out);
    assert_eq!(
        out,
        vec![1, 0xde, 0xad, 0xbe, 0xef, 0, 0, 0, 0, 0xff, 0xff, 0xff, 0xff]
    );
    assert_eq!(RequestPayload::from_bytes(&out[1..]).unwrap(), r);
    assert_eq!(RequestPayload::from_bytes(&out).unwrap_err(), WireError::Frame);
    assert_eq!(RequestPayload::from_bytes(&[]).unwrap_err(), WireError::Frame);
}

#[test]
fn piece_payload_fields() {
    let p = PiecePayload::from_bytes(&[0, 0, 1, 2, 0, 0, 0x40, 0, 5, 6, 7]).unwrap();
    assert_eq!(p, PiecePayload { index: 258, begin: 16384, block: vec![5, 6, 7] });
    assert_eq!(p.to_bytes(), vec![0, 0, 1, 2, 0, 0, 0x40, 0, 5, 6, 7]);
    let empty = PiecePayload::from_bytes(&[0; 8]).unwrap();
    assert_eq!(empty.block.len(), 0);
    assert_eq!(PiecePayload::from_bytes(&[0; 7]).unwrap_err(), WireError::Frame);
    let long = PiecePayload::from_bytes(&vec![1u8; 8 + 20000]).unwrap();
    assert_eq!(long.block.len(), 20000);
}

#[test]
fn received_messages() {
    assert_eq!(PeerMessage::from_bytes(0, &[]), Ok(PeerMessage::Choke));
    assert_eq!(PeerMessage::from_bytes(1, &[]), Ok(PeerMessage::Unchoke));
    assert_eq!(PeerMessage::from_bytes(5, &[0xff, 0x80]), Ok(PeerMessage::Bitfield));
    assert_eq!(PeerMessage::from_bytes(4, &[0, 0, 1, 0]), Ok(PeerMessage::Have(256)));
    assert_eq!(PeerMessage::from_bytes(4, &[0, 0, 1]), Err(WireError::Frame));
    assert_eq!(
        PeerMessage::from_bytes(7, &[0, 0, 0, 1, 0, 0, 0, 2, 3]),
        Ok(PeerMessage::Piece(PiecePayload { index: 1, begin: 2, block: vec![3] }))
    );
    assert_eq!(PeerMessage::from_bytes(7, &[0, 0, 0, 1]), Err(WireError::Frame));
    for id in [2u8, 3, 6, 8, 9, 20, 255] {
        assert_eq!(PeerMessage::from_bytes(id, &[0; 12]), Err(WireError::ProtocolSequence));
    }
}

#[test]
fn frame_reader() {
    let mut reader = PeerMessageReader::new();
    assert!(reader.is_keep_alive());
    assert_eq!(reader.payload_len(), 0);
    assert_eq!(reader.ident_byte(), 0);
    assert_eq!(reader.message(&[]), Err(WireError::Frame));

    reader.set_length([0, 0, 0, 5]);
    reader.set_ident(4);
    assert!(!reader.is_keep_alive());
    assert_eq!(reader.payload_len(), 4);
    assert_eq!(reader.checked_payload_len(), Ok(4));
    assert_eq!(reader.ident_byte(), 4);
    assert_eq!(reader.message(&[0, 0, 0, 9]), Ok(PeerMessage::Have(9)));
    assert_eq!(reader.message(&[0, 0, 9]), Err(WireError::Frame));
    assert_eq!(reader.message(&[0, 0, 0, 0, 9]), Err(WireError::Frame));

    reader.set_length([0, 0, 0, 1]);
    reader.set_ident(1);
    assert_eq!(reader.payload_len(), 0);
    assert_eq!(reader.message(&[]), Ok(PeerMessage::Unchoke));
    reader.set_ident(6);
    assert_eq!(reader.message(&[]), Err(WireError::ProtocolSequence));
}

#[test]
fn frame_reader_rejects_long_payloads() {
    let mut reader = PeerMessageReader::new();
    // payload of exactly 1 048 576 bytes
    reader.set_length([0x00, 0x10, 0x00, 0x01]);
    assert_eq!(reader.checked_payload_len(), Ok(1048576));
    // one byte more
    reader.set_length([0x00, 0x10, 0x00, 0x02]);
    assert_eq!(reader.payload_len(), 1048577);
    assert_eq!(reader.checked_payload_len(), Err(WireError::Frame));
    reader.set_length([0xff, 0xff, 0xff, 0xff]);
    assert_eq!(reader.checked_payload_len(), Err(WireError::Frame));
    reader.set_length([0, 0, 0, 0]);
    assert_eq!(reader.checked_payload_len(), Ok(0));
}
