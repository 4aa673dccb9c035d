use bittorrent::dispatch::{Dispatcher, Placement, Progress};
use bittorrent::download::{
    after_job, piece_jobs, DownloadError, FullPiece, Piece, PieceDownload, WorkerAction,
};
use bittorrent::torrent::{DownloadRequest, InfoHash, PieceHash};
use bittorrent::wire::{PiecePayload, RequestPayload, WireError};

fn content(len: usize) -> Vec<u8> {
    (0..len).map(|i| (i * 7 + i / 251) as u8).collect()
}

fn hashes_of(data: &[u8], piece_length: usize) -> Vec<PieceHash> {
    data.chunks(piece_length).map(|c| PieceHash::hash(&c.to_vec())).collect()
}

#[test]
fn jobs_in_index_order() {
    let data = content(92063);
    let hashes = hashes_of(&data, 32768);
    let info_hash = InfoHash::new([0; 20]);
    let req = DownloadRequest { length: 92063, piece_length: 32768, pieces: &hashes, info_hash: &info_hash };
    let jobs = piece_jobs(&req);
    assert_eq!(jobs.len(), 3);
    for (i, job) in jobs.iter().enumerate() {
        assert_eq!(job.idx, i);
        assert_eq!(job.hash, hashes[i]);
    }
    assert_eq!(jobs[0].len, 32768);
    assert_eq!(jobs[1].len, 32768);
    assert_eq!(jobs[2].len, 26527);
}

#[test]
fn piece_is_verified_by_length_and_digest() {
    let data = content(1000);
    let job = Piece { hash: PieceHash::hash(&data), idx: 4, len: 1000 };
    let full = FullPiece::verify(job.clone(), data.clone()).unwrap();
    assert_eq!(full.index(), 4);
    assert_eq!(full.bytes(), &data);
    assert_eq!(full.expected(), &job.hash);
    assert_eq!(full.into_bytes(), data);

    let mut wrong = data.clone();
    wrong[999] ^= 1;
    assert_eq!(FullPiece::verify(job.clone(), wrong).unwrap_err(), DownloadError::HashMismatch);
    let short = Piece { hash: PieceHash::hash(&data), idx: 4, len: 999 };
    assert_eq!(FullPiece::verify(short, data.clone()).unwrap_err(), DownloadError::HashMismatch);
    let other = Piece { hash: PieceHash::new(data[..20].to_vec()), idx: 4, len: 1000 };
    assert_eq!(FullPiece::verify(other, data).unwrap_err(), DownloadError::HashMismatch);
}

#[test]
fn digest_check_compares_bytewise() {
    let data = content(10);
    let digest = PieceHash::hash(&data);
    let job = Piece { hash: digest.clone(), idx: 0, len: 10 };
    assert!(FullPiece::check_digest(job.clone(), data.clone(), &digest).is_ok());
    let job = Piece { hash: PieceHash::new(vec![0; 20]), idx: 0, len: 10 };
    assert_eq!(
        FullPiece::check_digest(job, data, &digest).unwrap_err(),
        DownloadError::HashMismatch
    );
}

#[test]
fn piece_download_block_by_block() {
    let data = content(40000);
    let job = Piece { hash: PieceHash::hash(&data), idx: 2, len: 40000 };
    let mut d = PieceDownload::new(job);
    assert!(!d.is_done());
    let mut sent = Vec::new();
    while let Some(r) = d.next_request() {
        assert_eq!(d.next_request(), None);
        sent.push(r);
        let begin = r.begin as usize;
        let block = data[begin..begin + r.length as usize].to_vec();
        assert_eq!(d.accept(PiecePayload { index: r.index, begin: r.begin, block }), Ok(()));
    }
    assert_eq!(
        sent,
        vec![
            RequestPayload { index: 2, begin: 0, length: 16384 },
            RequestPayload { index: 2, begin: 16384, length: 16384 },
            RequestPayload { index: 2, begin: 32768, length: 7232 },
        ]
    );
    assert!(d.is_done());
    let full = d.finish().unwrap();
    assert_eq!(full.bytes(), &data);
}

#[test]
fn replies_out_of_turn_are_refused() {
    let data = content(20000);
    let job = Piece { hash: PieceHash::hash(&data), idx: 1, len: 20000 };
    let mut d = PieceDownload::new(job);
    let unasked = PiecePayload { index: 1, begin: 0, block: data[..16384].to_vec() };
    assert_eq!(d.accept(unasked), Err(WireError::ProtocolSequence));
    let r = d.next_request().unwrap();
    assert_eq!(r, RequestPayload { index: 1, begin: 0, length: 16384 });
    let other_piece = PiecePayload { index: 0, begin: 0, block: data[..16384].to_vec() };
    assert_eq!(d.accept(other_piece), Err(WireError::ProtocolSequence));
    let other_offset = PiecePayload { index: 1, begin: 16384, block: data[..16384].to_vec() };
    assert_eq!(d.accept(other_offset), Err(WireError::ProtocolSequence));
    let short = PiecePayload { index: 1, begin: 0, block: data[..16383].to_vec() };
    assert_eq!(d.accept(short), Err(WireError::ProtocolSequence));
    let long = PiecePayload { index: 1, begin: 0, block: data[..16385].to_vec() };
    assert_eq!(d.accept(long), Err(WireError::ProtocolSequence));
    assert_eq!(d.next_request(), None);
    let right = PiecePayload { index: 1, begin: 0, block: data[..16384].to_vec() };
    assert_eq!(d.accept(right), Ok(()));
    assert_eq!(
        d.next_request(),
        Some(RequestPayload { index: 1, begin: 16384, length: 3616 })
    );
}

#[test]
fn corrupted_piece_fails_the_job() {
    let data = content(100);
    let job = Piece { hash: PieceHash::hash(&data), idx: 0, len: 100 };
    let mut d = PieceDownload::new(job);
    let r = d.next_request().unwrap();
    let mut block = data.clone();
    block[5] ^= 0xff;
    assert_eq!(d.accept(PiecePayload { index: r.index, begin: r.begin, block }), Ok(()));
    let outcome = d.finish();
    assert_eq!(after_job(&outcome), WorkerAction::RequeueAndExit);
    assert_eq!(outcome.unwrap_err(), DownloadError::HashMismatch);
}

#[test]
fn unfinished_piece_fails_the_job() {
    let data = content(20000);
    let job = Piece { hash: PieceHash::hash(&data), idx: 0, len: 20000 };
    let mut d = PieceDownload::new(job);
    let r = d.next_request().unwrap();
    d.accept(PiecePayload { index: 0, begin: 0, block: data[..r.length as usize].to_vec() })
        .unwrap();
    assert!(!d.is_done());
    assert_eq!(d.finish().unwrap_err(), DownloadError::HashMismatch);
}

#[test]
fn worker_delivers_verified_pieces() {
    let data = content(10);
    let job = Piece { hash: PieceHash::hash(&data), idx: 0, len: 10 };
    assert_eq!(after_job(&FullPiece::verify(job, data)), WorkerAction::Deliver);
    assert_eq!(after_job(&Err(DownloadError::Stalled)), WorkerAction::RequeueAndExit);
    assert_eq!(after_job(&Err(DownloadError::Io)), WorkerAction::RequeueAndExit);
    assert_eq!(
        after_job(&Err(DownloadError::Wire(WireError::Frame))),
        WorkerAction::RequeueAndExit
    );
}

fn verified(data: &[u8], piece_length: usize, idx: usize) -> FullPiece {
    let chunk = data.chunks(piece_length).nth(idx).unwrap().to_vec();
    let job = Piece { hash: PieceHash::hash(&chunk), idx, len: chunk.len() };
    FullPiece::verify(job, chunk).unwrap()
}

#[test]
fn file_is_the_same_in_every_order_of_arrival() {
    let data = content(1000);
    let unit = 300;
    let hashes = hashes_of(&data, unit);
    let info_hash = InfoHash::new([0; 20]);
    let req = DownloadRequest { length: 1000, piece_length: unit, pieces: &hashes, info_hash: &info_hash };
    let orders: Vec<Vec<usize>> = vec![
        vec![0, 1, 2, 3],
        vec![3, 2, 1, 0],
        vec![1, 3, 0, 2],
        vec![2, 2, 0, 3, 0, 1, 1],
        vec![3, 0, 3, 1, 2, 3],
    ];
    for order in orders {
        let mut dispatcher = Dispatcher::new(&req);
        assert_eq!(dispatcher.file(), &vec![0u8; 1000]);
        let mut seen = vec![false; 4];
        let mut count = 0;
        for idx in order {
            if count < 4 {
                assert!(!dispatcher.is_complete());
                assert_eq!(dispatcher.progress(1), Progress::Continue);
                assert_eq!(dispatcher.progress(0), Progress::NoProgress);
            }
            let placement = dispatcher.accept(&verified(&data, unit, idx));
            if seen[idx] {
                assert_eq!(placement, Placement::Duplicate);
            } else {
                assert_eq!(placement, Placement::Written(idx * unit));
                seen[idx] = true;
                count += 1;
            }
            assert_eq!(dispatcher.is_complete(), count == 4);
        }
        assert_eq!(dispatcher.progress(0), Progress::Complete);
        assert_eq!(dispatcher.progress(3), Progress::Complete);
        assert_eq!(dispatcher.file(), &data);
    }
}

#[test]
fn completed_file_has_the_expected_piece_hashes() {
    let data = content(92063);
    let unit = 32768;
    let hashes = hashes_of(&data, unit);
    let info_hash = InfoHash::new([0; 20]);
    let req = DownloadRequest { length: 92063, piece_length: unit, pieces: &hashes, info_hash: &info_hash };
    let mut dispatcher = Dispatcher::new(&req);
    for idx in [2usize, 0, 1] {
        assert_eq!(
            dispatcher.accept(&verified(&data, unit, idx)),
            Placement::Written(idx * unit)
        );
    }
    assert!(dispatcher.is_complete());
    let file = dispatcher.file();
    assert_eq!(file.len(), 92063);
    for (i, chunk) in file.chunks(unit).enumerate() {
        assert_eq!(PieceHash::hash(&chunk.to_vec()), hashes[i]);
    }
}

#[test]
fn first_arrival_wins() {
    let data = content(10);
    let hashes = vec![PieceHash::hash(&data)];
    let info_hash = InfoHash::new([0; 20]);
    let req = DownloadRequest { length: 10, piece_length: 16, pieces: &hashes, info_hash: &info_hash };
    let mut dispatcher = Dispatcher::new(&req);
    assert_eq!(dispatcher.accept(&verified(&data, 16, 0)), Placement::Written(0));
    assert_eq!(dispatcher.accept(&verified(&data, 16, 0)), Placement::Duplicate);
    assert_eq!(dispatcher.file(), &data);
}

#[test]
fn foreign_pieces_are_dropped() {
    let data = content(1000);
    let hashes = hashes_of(&data, 300);
    let info_hash = InfoHash::new([0; 20]);
    let req = DownloadRequest { length: 1000, piece_length: 300, pieces: &hashes, info_hash: &info_hash };
    let mut dispatcher = Dispatcher::new(&req);

    let chunk = data[..300].to_vec();
    let beyond = Piece { hash: PieceHash::hash(&chunk), idx: 4, len: 300 };
    let beyond = FullPiece::verify(beyond, chunk.clone()).unwrap();
    assert_eq!(dispatcher.accept(&beyond), Placement::Foreign);

    let misplaced = Piece { hash: PieceHash::hash(&chunk), idx: 1, len: 300 };
    let misplaced = FullPiece::verify(misplaced, chunk).unwrap();
    assert_eq!(dispatcher.accept(&misplaced), Placement::Foreign);

    let short = data[900..950].to_vec();
    let short_job = Piece { hash: PieceHash::hash(&short), idx: 3, len: 50 };
    let short = FullPiece::verify(short_job, short).unwrap();
    assert_eq!(dispatcher.accept(&short), Placement::Foreign);

    assert_eq!(dispatcher.file(), &vec![0u8; 1000]);
    assert!(!dispatcher.is_complete());
}

#[test]
fn finished_download_hands_out_the_file() {
    let data = content(1000);
    let hashes = hashes_of(&data, 300);
    let info_hash = InfoHash::new([0; 20]);
    let req = DownloadRequest { length: 1000, piece_length: 300, pieces: &hashes, info_hash: &info_hash };

    let mut dispatcher = Dispatcher::new(&req);
    assert_eq!(dispatcher.pieces_done(), 0);
    for idx in [3usize, 1, 0] {
        dispatcher.accept(&verified(&data, 300, idx));
    }
    assert_eq!(dispatcher.pieces_done(), 3);
    assert_eq!(dispatcher.finish().unwrap_err(), DownloadError::NoProgress);

    let mut dispatcher = Dispatcher::new(&req);
    for idx in [3usize, 1, 0, 2] {
        dispatcher.accept(&verified(&data, 300, idx));
    }
    assert_eq!(dispatcher.pieces_done(), 4);
    assert_eq!(dispatcher.finish().unwrap(), data);
}
