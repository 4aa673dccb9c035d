use bittorrent::blocks::RequestPayloadGen;
use bittorrent::wire::{RequestPayload, BLOCK_SIZE};

#[test]
fn test_request_payload_gen_next() {
    let piece_len = 32768;
    let mut gen = RequestPayloadGen::new(piece_len, 0);
    let counts = 2; // BLOCK_SIZE * 2 == piece_len
    let mut cnt = 0;
    for _n in 0..counts {
        let is_some = gen.next().is_some();
        cnt += 1;
        assert_eq!(is_some, true)
    }

    assert_eq!(gen.next().is_some(), false);
    assert_eq!(cnt, 2);
}

#[test]
fn test_request_payload_gen_next_smaller_piece_len() {
    let piece_len = 6241;
    let mut gen = RequestPayloadGen::new(piece_len, 0);
    let req = gen.next();
    assert_eq!(req.is_some(), true);
}

#[test]
fn two_full_blocks() {
    let mut gen = RequestPayloadGen::new(32768, 3);
    assert_eq!(gen.next(), Some(RequestPayload { index: 3, begin: 0, length: 16384 }));
    assert_eq!(gen.next(), Some(RequestPayload { index: 3, begin: 16384, length: 16384 }));
    assert_eq!(gen.next(), None);
    assert_eq!(gen.next(), None);
}

#[test]
fn one_short_block() {
    let mut gen = RequestPayloadGen::new(6241, 0);
    assert_eq!(gen.next(), Some(RequestPayload { index: 0, begin: 0, length: 6241 }));
    assert_eq!(gen.next(), None);
}

#[test]
fn last_block_is_cut_short() {
    let all = RequestPayloadGen::requests(26527, 2);
    assert_eq!(
        all,
        vec![
            RequestPayload { index: 2, begin: 0, length: 16384 },
            RequestPayload { index: 2, begin: 16384, length: 10143 },
        ]
    );
}

#[test]
fn empty_piece_has_no_blocks() {
    let mut gen = RequestPayloadGen::new(0, 0);
    assert_eq!(gen.next(), None);
    assert_eq!(RequestPayloadGen::requests(0, 0), vec![]);
}

#[test]
fn blocks_partition_the_piece() {
    for piece_len in [1usize, 16383, 16384, 16385, 32768, 92063, 262144, 1000000] {
        let all = RequestPayloadGen::requests(piece_len, 7);
        let total: usize = all.iter().map(|r| r.length as usize).sum();
        assert_eq!(total, piece_len);
        assert_eq!(all.len(), (piece_len + BLOCK_SIZE - 1) / BLOCK_SIZE);
        for (k, r) in all.iter().enumerate() {
            assert_eq!(r.index, 7);
            assert_eq!(r.begin as usize, k * BLOCK_SIZE);
            assert!(r.length as usize <= BLOCK_SIZE);
            assert!(r.length > 0);
            if k + 1 < all.len() {
                assert_eq!(r.length as usize, BLOCK_SIZE);
            }
        }
        let last = all.last().unwrap();
        assert_eq!(
            last.length as usize,
            piece_len - ((piece_len - 1) / BLOCK_SIZE) * BLOCK_SIZE
        );
    }
}
