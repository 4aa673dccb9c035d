//! Downloading one piece: its job, the requests and replies for its blocks,
//! and the check of its digest.

use vstd::prelude::*;
use crate::blocks::{block_begin, block_length, RequestPayloadGen};
use crate::torrent::{piece_length_at, sha1_digest, DownloadRequest, PieceHash};
use crate::wire::{PiecePayload, RequestPayload, WireError, BLOCK_SIZE};

verus! {

/// Why a download, or a part of it, failed.
#[derive(Debug, Clone, Copy, PartialEq, Eq, Structural)]
pub enum DownloadError {
    /// The peer broke the wire protocol.
    Wire(WireError),
    /// A piece came with another length or digest than the torrent names.
    HashMismatch,
    /// No byte came within the time allowed.
    Stalled,
    /// Every worker has gone and pieces are still missing.
    NoProgress,
    /// The socket or the file failed.
    Io,
}

/// The job of downloading one piece: its index, its length and the digest it
/// has to have.
#[derive(Debug)]
pub struct Piece {
    pub hash: PieceHash,
    pub idx: usize,
    pub len: usize,
}

impl Clone for Piece {
    fn clone(&self) -> (copy: Piece)
        ensures
            copy.hash@ == self.hash@,
            copy.idx == self.idx,
            copy.len == self.len,
    {
        Piece { hash: self.hash.clone(), idx: self.idx, len: self.len }
    }
}

/// The jobs of a download, one for each piece, in index order. Each has the
/// piece's digest and length; only the last piece may be shorter than the
/// others.
pub fn piece_jobs(req: &DownloadRequest) -> (jobs: Vec<Piece>)
    requires
        req.wf(),
    ensures
        jobs@.len() == req.pieces@.len(),
        forall|i: int|
            0 <= i < jobs@.len() ==> (#[trigger] jobs@[i]).idx == i && jobs@[i].hash@
                == req.pieces@[i]@ && jobs@[i].len == piece_length_at(
                req.length as nat,
                req.piece_length as nat,
                i as nat,
            ),
{
    let mut jobs: Vec<Piece> = Vec::new();
    let mut i: usize = 0;
    while i < req.pieces.len()
        invariant
            i <= req.pieces@.len(),
            req.length > 0,
            req.piece_length > 0,
            jobs@.len() == i,
            forall|k: int|
                0 <= k < i ==> (#[trigger] jobs@[k]).idx == k && jobs@[k].hash@ == req.pieces@[k]@
                    && jobs@[k].len == piece_length_at(
                    req.length as nat,
                    req.piece_length as nat,
                    k as nat,
                ),
        decreases req.pieces@.len() - i,
    {
        jobs.push(Piece { hash: req.pieces[i].clone(), idx: i, len: req.piece_len(i) });
        i += 1;
    }
    jobs
}

/// A piece that has been downloaded and found to have the length and the
/// digest of its job.
#[derive(Debug)]
pub struct FullPiece {
    data: Vec<u8>,
    piece: Piece,
}

impl FullPiece {
    pub closed spec fn data(&self) -> Seq<u8> {
        self.data@
    }

    pub closed spec fn piece(&self) -> Piece {
        self.piece
    }

    /// The data has the job's length and digest. This holds of every
    /// `FullPiece`.
    #[verifier::type_invariant]
    pub closed spec fn verified(&self) -> bool {
        self.data@.len() == self.piece.len && sha1_digest(self.data@) == self.piece.hash@
    }

    /// Accepts `data` as the piece of `piece`, where `digest`, the SHA-1 of
    /// `data`, is the job's digest and `data` has the job's length.
    pub fn check_digest(piece: Piece, data: Vec<u8>, digest: &PieceHash) -> (res: Result<
        FullPiece,
        DownloadError,
    >)
        requires
            digest@ == sha1_digest(data@),
        ensures
            match res {
                Ok(full) => data@.len() == piece.len && digest@ == piece.hash@ && full.data()
                    == data@ && full.piece() == piece,
                Err(e) => e == DownloadError::HashMismatch && !(data@.len() == piece.len
                    && digest@ == piece.hash@),
            },
    {
        if data.len() != piece.len || *digest != piece.hash {
            Err(DownloadError::HashMismatch)
        } else {
            Ok(FullPiece { data, piece })
        }
    }

    /// Accepts `data` as the piece of `piece`, where it has the job's length
    /// and its SHA-1 is the job's digest.
    pub fn verify(piece: Piece, data: Vec<u8>) -> (res: Result<FullPiece, DownloadError>)
        ensures
            match res {
                Ok(full) => data@.len() == piece.len && sha1_digest(data@) == piece.hash@
                    && full.data() == data@ && full.piece() == piece,
                Err(e) => e == DownloadError::HashMismatch && !(data@.len() == piece.len
                    && sha1_digest(data@) == piece.hash@),
            },
    {
        let digest = PieceHash::hash(&data);
        FullPiece::check_digest(piece, data, &digest)
    }

    /// The index of the piece.
    pub fn index(&self) -> (idx: usize)
        ensures
            idx == self.piece().idx,
    {
        self.piece.idx
    }

    /// The digest that the job named.
    pub fn expected(&self) -> (hash: &PieceHash)
        ensures
            hash@ == self.piece().hash@,
    {
        &self.piece.hash
    }

    /// The bytes of the piece: as many as the job asked for, with the digest
    /// it named.
    pub fn bytes(&self) -> (data: &Vec<u8>)
        ensures
            data@ == self.data(),
            data@.len() == self.piece().len,
            sha1_digest(data@) == self.piece().hash@,
    {
        proof {
            use_type_invariant(self);
        }
        &self.data
    }

    /// The bytes of the piece.
    pub fn into_bytes(self) -> (data: Vec<u8>)
        ensures
            data@ == self.data(),
            data@.len() == self.piece().len,
            sha1_digest(data@) == self.piece().hash@,
    {
        proof {
            use_type_invariant(&self);
        }
        self.data
    }
}

/// The state of one piece's download over one connection: which blocks have
/// been asked for, which reply is awaited, and the bytes that came so far.
/// One request is outstanding at a time.
#[derive(Debug)]
pub struct PieceDownload {
    piece: Piece,
    gen: RequestPayloadGen,
    pending: Option<RequestPayload>,
    data: Vec<u8>,
}

impl PieceDownload {
    pub closed spec fn piece(&self) -> Piece {
        self.piece
    }

    /// The request whose reply is awaited.
    pub closed spec fn pending(&self) -> Option<RequestPayload> {
        self.pending
    }

    /// The bytes that came so far, in the order of the piece.
    pub closed spec fn received(&self) -> Seq<u8> {
        self.data@
    }

    /// The bytes that came so far and the reply awaited make up what has been
    /// asked for.
    #[verifier::type_invariant]
    closed spec fn coherent(&self) -> bool {
        &&& self.gen.piece_len() == self.piece.len
        &&& self.gen.piece_idx() == self.piece.idx
        &&& self.piece.len <= u32::MAX
        &&& self.piece.idx <= u32::MAX
        &&& self.gen.progress() <= self.piece.len
        &&& match self.pending {
            None => self.data@.len() == self.gen.progress(),
            Some(r) => self.data@.len() + r.length == self.gen.progress() && r.begin
                == self.data@.len() && r.index == self.piece.idx && r.length > 0,
        }
    }

    /// The download of `piece`, with nothing asked for yet. Index and length
    /// have to fit the thirty-two bits they have on the wire.
    pub fn new(piece: Piece) -> (download: PieceDownload)
        requires
            piece.len <= u32::MAX,
            piece.idx <= u32::MAX,
        ensures
            download.piece() == piece,
            download.pending() is None,
            download.received() == Seq::<u8>::empty(),
    {
        let gen = RequestPayloadGen::new(piece.len, piece.idx);
        PieceDownload { piece, gen, pending: None, data: Vec::new() }
    }

    /// The next request to send: for the block that begins where the bytes
    /// received so far end. There is none while a reply is awaited, and none
    /// once the piece is covered.
    pub fn next_request(&mut self) -> (request: Option<RequestPayload>)
        ensures
            final(self).piece() == old(self).piece(),
            final(self).received() == old(self).received(),
            match request {
                None => final(self).pending() == old(self).pending() && (old(self).pending() is Some
                    || old(self).received().len() == old(self).piece().len),
                Some(r) => {
                    &&& old(self).pending() is None
                    &&& old(self).received().len() < old(self).piece().len
                    &&& final(self).pending() == Some(r)
                    &&& r.index == old(self).piece().idx
                    &&& r.begin == old(self).received().len()
                    &&& r.begin == block_begin(
                        BLOCK_SIZE as nat,
                        old(self).received().len() / BLOCK_SIZE as nat,
                    )
                    &&& r.length == block_length(
                        old(self).piece().len as nat,
                        BLOCK_SIZE as nat,
                        old(self).received().len() / BLOCK_SIZE as nat,
                    )
                },
            },
    {
        proof {
            use_type_invariant(&*self);
        }
        if self.pending.is_some() {
            return None;
        }
        let PieceDownload { piece, mut gen, pending, data } = self.take();
        let request = gen.next();
        *self = PieceDownload { piece, gen, pending: request, data };
        request
    }

    /// Takes the state out and leaves a fresh download of the same piece.
    fn take(&mut self) -> (state: PieceDownload)
        ensures
            state == *old(self),
            final(self).piece().idx == old(self).piece().idx,
            final(self).piece().len == old(self).piece().len,
    {
        proof {
            use_type_invariant(&*self);
        }
        let mut state = PieceDownload {
            piece: self.piece.clone(),
            gen: RequestPayloadGen::new(self.piece.len, self.piece.idx),
            pending: None,
            data: Vec::new(),
        };
        core::mem::swap(self, &mut state);
        state
    }

    /// Takes a peer's `piece` message. It has to answer the request that is
    /// awaited, by index and begin, and to bring as many bytes as were asked
    /// for; its block is then added to the bytes received. Any other reply is
    /// out of turn and changes nothing.
    pub fn accept(&mut self, reply: PiecePayload) -> (res: Result<(), WireError>)
        ensures
            final(self).piece() == old(self).piece(),
            match res {
                Ok(_) => {
                    &&& old(self).pending() matches Some(r)
                    &&& answers(r, reply)
                    &&& final(self).pending() is None
                    &&& final(self).received() == old(self).received() + reply.block@
                },
                Err(e) => {
                    &&& e == WireError::ProtocolSequence
                    &&& !(old(self).pending() matches Some(r) && answers(r, reply))
                    &&& final(self).pending() == old(self).pending()
                    &&& final(self).received() == old(self).received()
                },
            },
    {
        proof {
            use_type_invariant(&*self);
        }
        let request = match self.pending {
            None => { return Err(WireError::ProtocolSequence); },
            Some(r) => r,
        };
        if reply.index != request.index || reply.begin != request.begin || reply.block.len()
            != request.length as usize {
            return Err(WireError::ProtocolSequence);
        }
        let PieceDownload { piece, gen, pending, mut data } = self.take();
        data.extend_from_slice(reply.block.as_slice());
        *self = PieceDownload { piece, gen, pending: None, data };
        Ok(())
    }

    /// Every block has been asked for and has come.
    pub fn is_done(&self) -> (done: bool)
        ensures
            done == (self.pending() is None && self.received().len() == self.piece().len),
    {
        proof {
            use_type_invariant(self);
        }
        self.pending.is_none() && self.data.len() == self.piece.len
    }

    /// Ends the download: the bytes received are the piece where they have
    /// its length and its digest.
    pub fn finish(self) -> (res: Result<FullPiece, DownloadError>)
        ensures
            match res {
                Ok(full) => self.received().len() == self.piece().len && sha1_digest(
                    self.received(),
                ) == self.piece().hash@ && full.data() == self.received() && full.piece()
                    == self.piece(),
                Err(e) => e == DownloadError::HashMismatch && !(self.received().len()
                    == self.piece().len && sha1_digest(self.received()) == self.piece().hash@),
            },
    {
        FullPiece::verify(self.piece, self.data)
    }
}

/// The reply answers the request: same piece, same offset, and as many bytes
/// as were asked for.
pub open spec fn answers(request: RequestPayload, reply: PiecePayload) -> bool {
    reply.index == request.index && reply.begin == request.begin && reply.block@.len()
        == request.length
}

/// What a worker does after a job.
#[derive(Debug, Clone, Copy, PartialEq, Eq, Structural)]
pub enum WorkerAction {
    /// Hand the piece to the dispatcher and take the next job.
    Deliver,
    /// Put the job back for another worker, and stop.
    RequeueAndExit,
}

/// A worker hands on a piece that was verified; after any failure it puts the
/// job back and stops.
pub fn after_job(outcome: &Result<FullPiece, DownloadError>) -> (action: WorkerAction)
    ensures
        action == WorkerAction::Deliver <==> outcome is Ok,
        action == WorkerAction::RequeueAndExit <==> outcome is Err,
{
    match outcome {
        Ok(_) => WorkerAction::Deliver,
        Err(_) => WorkerAction::RequeueAndExit,
    }
}

} // verus!
