//! Splitting a piece into the block requests that cover it.

use vstd::prelude::*;
use crate::wire::{RequestPayload, BLOCK_SIZE};

verus! {

/// The number of blocks of size `block` that cover `piece_len` bytes.
pub open spec fn block_count(piece_len: nat, block: nat) -> nat {
    if piece_len % block == 0 {
        piece_len / block
    } else {
        piece_len / block + 1
    }
}

/// Where block `k` begins.
pub open spec fn block_begin(block: nat, k: nat) -> nat {
    k * block
}

/// The length of block `k`: `block`, but for a last block that the piece
/// cuts short.
pub open spec fn block_length(piece_len: nat, block: nat, k: nat) -> nat {
    if (k + 1) * block <= piece_len {
        block
    } else {
        (piece_len - k * block) as nat
    }
}

/// The lengths of the first `n` blocks, added up.
pub open spec fn blocks_total(piece_len: nat, block: nat, n: nat) -> nat
    decreases n,
{
    if n == 0 {
        0
    } else {
        blocks_total(piece_len, block, (n - 1) as nat) + block_length(
            piece_len,
            block,
            (n - 1) as nat,
        )
    }
}

/// The first `n` blocks, none of them cut short, cover `n * block` bytes.
proof fn lemma_full_blocks(piece_len: nat, block: nat, n: nat)
    requires
        block > 0,
        n * block <= piece_len,
    ensures
        blocks_total(piece_len, block, n) == n * block,
    decreases n,
{
    if n > 0 {
        let m = (n - 1) as nat;
        assert(m * block + block == n * block && (m + 1) * block == n * block) by (nonlinear_arith)
            requires
                m + 1 == n,
        ;
        lemma_full_blocks(piece_len, block, m);
        assert(block_length(piece_len, block, m) == block);
    } else {
        assert(0 * block == 0) by (nonlinear_arith);
    }
}

/// The blocks of a piece partition it: their lengths add up to the piece's
/// length, each is at most `block` long and not empty, all but the last are
/// exactly `block` long, they begin at strictly increasing offsets starting
/// at 0, and the last has length `piece_len - ((piece_len - 1) / block) * block`.
pub proof fn law_blocks_partition(piece_len: nat, block: nat)
    requires
        block > 0,
    ensures
        blocks_total(piece_len, block, block_count(piece_len, block)) == piece_len,
        forall|k: nat|
            k < block_count(piece_len, block) ==> 0 < #[trigger] block_length(piece_len, block, k)
                <= block,
        forall|k: nat|
            k + 1 < block_count(piece_len, block) ==> #[trigger] block_length(piece_len, block, k)
                == block,
        forall|i: nat, j: nat|
            i < j < block_count(piece_len, block) ==> #[trigger] block_begin(block, i)
                < #[trigger] block_begin(block, j),
        piece_len > 0 ==> block_begin(block, 0) == 0,
        piece_len > 0 ==> block_length(
            piece_len,
            block,
            (block_count(piece_len, block) - 1) as nat,
        ) == piece_len - ((piece_len - 1) / block as int) * block,
{
    let n = block_count(piece_len, block);
    let q = piece_len / block;
    let r = piece_len % block;
    assert(piece_len == q * block + r && 0 <= r < block) by (nonlinear_arith)
        requires
            block > 0,
            q == piece_len / block,
            r == piece_len % block,
    ;
    lemma_full_blocks(piece_len, block, q);
    if r != 0 {
        assert((q + 1) * block == q * block + block) by (nonlinear_arith);
    }
    assert forall|k: nat| k < n implies 0 < #[trigger] block_length(piece_len, block, k)
        <= block by {
        assert(k * block <= q * block - block || k == q || k + 1 == q) by (nonlinear_arith)
            requires
                k < n,
                n <= q + 1,
                block > 0,
        ;
        assert((k + 1) * block == k * block + block) by (nonlinear_arith);
    }
    assert forall|k: nat| k + 1 < n implies #[trigger] block_length(piece_len, block, k)
        == block by {
        assert((k + 1) * block <= q * block) by (nonlinear_arith)
            requires
                k + 1 <= q,
                block > 0,
        ;
    }
    assert forall|i: nat, j: nat| i < j < n implies #[trigger] block_begin(block, i)
        < #[trigger] block_begin(block, j) by {
        assert(i * block < j * block) by (nonlinear_arith)
            requires
                i < j,
                block > 0,
        ;
    }
    if piece_len > 0 {
        let last = (n - 1) as nat;
        assert(0 * block == 0) by (nonlinear_arith);
        assert((piece_len - 1) / block as int == last) by (nonlinear_arith)
            requires
                block > 0,
                piece_len > 0,
                piece_len == q * block + r,
                0 <= r < block,
                last == if r == 0 { q - 1 } else { q as int },
        ;
        assert((last + 1) * block == last * block + block) by (nonlinear_arith);
    }
}

/// Gives, one by one, the requests for the blocks of one piece.
#[derive(Debug)]
pub struct RequestPayloadGen {
    piece_len: usize,
    piece_idx: usize,
    progress: usize,
}

impl Clone for RequestPayloadGen {
    fn clone(&self) -> (copy: RequestPayloadGen)
        ensures
            copy.piece_len() == self.piece_len(),
            copy.piece_idx() == self.piece_idx(),
            copy.progress() == self.progress(),
    {
        proof {
            use_type_invariant(self);
        }
        RequestPayloadGen {
            piece_len: self.piece_len,
            piece_idx: self.piece_idx,
            progress: self.progress,
        }
    }
}

impl RequestPayloadGen {
    pub closed spec fn piece_len(&self) -> nat {
        self.piece_len as nat
    }

    pub closed spec fn piece_idx(&self) -> nat {
        self.piece_idx as nat
    }

    /// How many bytes of the piece the requests given so far cover.
    pub closed spec fn progress(&self) -> nat {
        self.progress as nat
    }

    /// Indices and lengths fit the thirty-two bits they have on the wire, and
    /// the requests given so far are whole blocks or the whole piece.
    #[verifier::type_invariant]
    closed spec fn fits(&self) -> bool {
        &&& self.piece_len <= u32::MAX
        &&& self.piece_idx <= u32::MAX
        &&& self.progress <= self.piece_len
        &&& (self.progress % BLOCK_SIZE == 0 || self.progress == self.piece_len)
    }

    /// The generator for piece `piece_idx`, which is `piece_len` bytes long.
    /// Both have to fit in thirty-two bits.
    pub fn new(piece_len: usize, piece_idx: usize) -> (gen: Self)
        requires
            piece_len <= u32::MAX,
            piece_idx <= u32::MAX,
        ensures
            gen.piece_len() == piece_len,
            gen.piece_idx() == piece_idx,
            gen.progress() == 0,
    {
        Self { piece_len, piece_idx, progress: 0 }
    }

    /// The request for the next block, or `None` once the piece is covered.
    /// Block `k` begins at `k * BLOCK_SIZE` and is `BLOCK_SIZE` long, but for a
    /// last block that the piece cuts short.
    pub fn next(&mut self) -> (request: Option<RequestPayload>)
        ensures
            final(self).piece_len() == old(self).piece_len(),
            final(self).piece_idx() == old(self).piece_idx(),
            old(self).progress() <= old(self).piece_len(),
            match request {
                None => old(self).progress() == old(self).piece_len() && final(self).progress()
                    == old(self).progress(),
                Some(r) => {
                    let k = old(self).progress() / BLOCK_SIZE as nat;
                    &&& old(self).progress() < old(self).piece_len()
                    &&& old(self).progress() == block_begin(BLOCK_SIZE as nat, k)
                    &&& r.index == old(self).piece_idx()
                    &&& r.begin == block_begin(BLOCK_SIZE as nat, k)
                    &&& r.length == block_length(old(self).piece_len(), BLOCK_SIZE as nat, k)
                    &&& final(self).progress() == old(self).progress() + r.length
                },
            },
    {
        proof {
            use_type_invariant(&*self);
        }
        if self.progress >= self.piece_len {
            return None;
        }
        let left = self.piece_len - self.progress;
        let len = if left >= BLOCK_SIZE { BLOCK_SIZE } else { left };
        let request = RequestPayload {
            index: self.piece_idx as u32,
            begin: self.progress as u32,
            length: len as u32,
        };
        self.progress = self.progress + len;
        Some(request)
    }

    /// All the requests for piece `piece_idx` of `piece_len` bytes, in order.
    pub fn requests(piece_len: usize, piece_idx: usize) -> (all: Vec<RequestPayload>)
        requires
            piece_len <= u32::MAX,
            piece_idx <= u32::MAX,
        ensures
            all@.len() == block_count(piece_len as nat, BLOCK_SIZE as nat),
            forall|k: int|
                0 <= k < all@.len() ==> (#[trigger] all@[k]).index == piece_idx && all@[k].begin
                    == block_begin(BLOCK_SIZE as nat, k as nat) && all@[k].length == block_length(
                    piece_len as nat,
                    BLOCK_SIZE as nat,
                    k as nat,
                ),
    {
        let mut gen = Self::new(piece_len, piece_idx);
        let mut all: Vec<RequestPayload> = Vec::new();
        let mut open = true;
        while open
            invariant
                gen.piece_len() == piece_len,
                gen.piece_idx() == piece_idx,
                gen.progress() <= piece_len,
                open ==> gen.progress() == all@.len() * BLOCK_SIZE,
                !open ==> all@.len() == block_count(piece_len as nat, BLOCK_SIZE as nat),
                forall|k: int|
                    0 <= k < all@.len() ==> (#[trigger] all@[k]).index == piece_idx
                        && all@[k].begin == block_begin(BLOCK_SIZE as nat, k as nat)
                        && all@[k].length == block_length(
                        piece_len as nat,
                        BLOCK_SIZE as nat,
                        k as nat,
                    ),
            decreases piece_len - gen.progress(), if open { 1int } else { 0int },
        {
            let ghost before = gen.progress();
            match gen.next() {
                None => {
                    open = false;
                },
                Some(r) => {
                    all.push(r);
                    if r.length < BLOCK_SIZE as u32 {
                        open = false;
                    }
                },
            }
        }
        all
    }
}

} // verus!
