//! Putting verified pieces together: each goes to its place in the file, in
//! whatever order the pieces come.

use vstd::prelude::*;
use crate::download::{DownloadError, FullPiece};
use crate::torrent::{
    consistent, law_piece_count, piece_count, piece_length_at, sha1_digest, DownloadRequest,
    PieceHash,
};

verus! {

/// `file` after `data` was written at `offset`.
pub open spec fn write_at(file: Seq<u8>, offset: nat, data: Seq<u8>) -> Seq<u8> {
    file.subrange(0, offset as int) + data + file.subrange(
        (offset + data.len()) as int,
        file.len() as int,
    )
}

/// The bytes of piece `index` in a file.
pub open spec fn chunk(file: Seq<u8>, length: nat, piece_length: nat, index: nat) -> Seq<u8> {
    file.subrange(
        (index * piece_length) as int,
        (index * piece_length + piece_length_at(length, piece_length, index)) as int,
    )
}

/// A piece as it reaches the dispatcher.
pub struct Arrival {
    pub index: nat,
    pub data: Seq<u8>,
}

/// What the dispatcher has put together: the file so far, and the indices of
/// the pieces that are in it.
pub struct Assembly {
    pub file: Seq<u8>,
    pub done: Set<nat>,
}

/// The assembly after one arrival: the first piece to come for an index is
/// written at `index * piece_length`; a later one for that index is dropped.
pub open spec fn place(state: Assembly, piece_length: nat, arrival: Arrival) -> Assembly {
    if state.done.contains(arrival.index) {
        state
    } else {
        Assembly {
            file: write_at(state.file, arrival.index * piece_length, arrival.data),
            done: state.done.insert(arrival.index),
        }
    }
}

/// The assembly after all of `arrivals`, in their order.
pub open spec fn place_all(state: Assembly, piece_length: nat, arrivals: Seq<Arrival>) -> Assembly
    decreases arrivals.len(),
{
    if arrivals.len() == 0 {
        state
    } else {
        place(place_all(state, piece_length, arrivals.drop_last()), piece_length, arrivals.last())
    }
}

/// The data of the first of `arrivals` for piece `index`.
pub open spec fn first_for(arrivals: Seq<Arrival>, index: nat) -> Option<Seq<u8>>
    decreases arrivals.len(),
{
    if arrivals.len() == 0 {
        None
    } else {
        match first_for(arrivals.drop_last(), index) {
            Some(data) => Some(data),
            None => if arrivals.last().index == index {
                Some(arrivals.last().data)
            } else {
                None
            },
        }
    }
}

/// The arrival is for a piece of the file and has that piece's length.
pub open spec fn fits(length: nat, piece_length: nat, arrival: Arrival) -> bool {
    arrival.index < piece_count(length, piece_length) && arrival.data.len() == piece_length_at(
        length,
        piece_length,
        arrival.index,
    )
}

/// Piece `i` lies within the file, and apart from every other piece.
pub proof fn lemma_chunk_bounds(length: nat, piece_length: nat, i: nat, j: nat)
    requires
        length > 0,
        piece_length > 0,
        i < piece_count(length, piece_length),
        j < piece_count(length, piece_length),
    ensures
        0 < piece_length_at(length, piece_length, i) <= piece_length,
        i * piece_length + piece_length_at(length, piece_length, i) <= length,
        i < j ==> i * piece_length + piece_length_at(length, piece_length, i) <= j * piece_length,
{
    law_piece_count(length, piece_length);
    let n = piece_count(length, piece_length);
    assert(i * piece_length + piece_length <= (n - 1) * piece_length || i + 1 == n)
        by (nonlinear_arith)
        requires
            i < n,
            piece_length > 0,
    ;
    if i < j {
        assert(i * piece_length + piece_length <= j * piece_length) by (nonlinear_arith)
            requires
                i < j,
                piece_length > 0,
        ;
    }
}

/// One arrival that fits leaves the file its length, puts its data in the
/// place of its piece where that piece was missing, and leaves every other
/// piece as it was.
pub proof fn lemma_place(state: Assembly, length: nat, piece_length: nat, arrival: Arrival)
    requires
        length > 0,
        piece_length > 0,
        state.file.len() == length,
        fits(length, piece_length, arrival),
    ensures
        place(state, piece_length, arrival).file.len() == length,
        !state.done.contains(arrival.index) ==> chunk(
            place(state, piece_length, arrival).file,
            length,
            piece_length,
            arrival.index,
        ) == arrival.data,
        forall|j: nat|
            j < piece_count(length, piece_length) && j != arrival.index ==> #[trigger] chunk(
                place(state, piece_length, arrival).file,
                length,
                piece_length,
                j,
            ) == chunk(state.file, length, piece_length, j),
{
    let i = arrival.index;
    let after = place(state, piece_length, arrival);
    lemma_chunk_bounds(length, piece_length, i, i);
    if !state.done.contains(i) {
        assert(chunk(after.file, length, piece_length, i) =~= arrival.data);
        assert forall|j: nat| j < piece_count(length, piece_length) && j != i implies #[trigger] chunk(
            after.file,
            length,
            piece_length,
            j,
        ) == chunk(state.file, length, piece_length, j) by {
            lemma_chunk_bounds(length, piece_length, i, j);
            lemma_chunk_bounds(length, piece_length, j, i);
            assert(chunk(after.file, length, piece_length, j) =~= chunk(
                state.file,
                length,
                piece_length,
                j,
            ));
        }
    }
}

/// In whatever order verified pieces come, and however often, the file ends
/// with each piece's place holding the data of the first arrival for that
/// piece; the places of pieces that never came are as they were.
pub proof fn law_any_order(start: Seq<u8>, length: nat, piece_length: nat, arrivals: Seq<Arrival>)
    requires
        length > 0,
        piece_length > 0,
        start.len() == length,
        forall|k: int| 0 <= k < arrivals.len() ==> fits(length, piece_length, #[trigger] arrivals[k]),
    ensures
        ({
            let end = place_all(Assembly { file: start, done: Set::empty() }, piece_length, arrivals);
            &&& end.file.len() == length
            &&& forall|i: nat| #[trigger] end.done.contains(i) <==> first_for(arrivals, i) is Some
            &&& forall|i: nat|
                i < piece_count(length, piece_length) ==> #[trigger] chunk(
                    end.file,
                    length,
                    piece_length,
                    i,
                ) == match first_for(arrivals, i) {
                    Some(data) => data,
                    None => chunk(start, length, piece_length, i),
                }
        }),
    decreases arrivals.len(),
{
    let begin = Assembly { file: start, done: Set::empty() };
    if arrivals.len() > 0 {
        let before = arrivals.drop_last();
        let last = arrivals.last();
        assert forall|k: int| 0 <= k < before.len() implies fits(
            length,
            piece_length,
            #[trigger] before[k],
        ) by {
            assert(before[k] == arrivals[k]);
        }
        law_any_order(start, length, piece_length, before);
        let mid = place_all(begin, piece_length, before);
        lemma_place(mid, length, piece_length, last);
        let end = place(mid, piece_length, last);
        assert forall|i: nat| #[trigger] end.done.contains(i) <==> first_for(arrivals, i) is Some by {
            assert(mid.done.contains(i) <==> first_for(before, i) is Some);
        }
        assert forall|i: nat| i < piece_count(length, piece_length) implies #[trigger] chunk(
            end.file,
            length,
            piece_length,
            i,
        ) == match first_for(arrivals, i) {
            Some(data) => data,
            None => chunk(start, length, piece_length, i),
        } by {
            assert(mid.done.contains(i) <==> first_for(before, i) is Some);
            assert(chunk(mid.file, length, piece_length, i) == match first_for(before, i) {
                Some(data) => data,
                None => chunk(start, length, piece_length, i),
            });
        }
    }
}

/// A file is the concatenation of its pieces in index order: two files of one
/// length that agree on every piece are the same file.
pub proof fn law_file_is_its_pieces(f: Seq<u8>, g: Seq<u8>, length: nat, piece_length: nat)
    requires
        length > 0,
        piece_length > 0,
        f.len() == length,
        g.len() == length,
        forall|i: nat|
            i < piece_count(length, piece_length) ==> #[trigger] chunk(f, length, piece_length, i)
                == chunk(g, length, piece_length, i),
    ensures
        f == g,
{
    law_piece_count(length, piece_length);
    let n = piece_count(length, piece_length);
    assert forall|p: int| 0 <= p < length implies f[p] == g[p] by {
        let i = (p / piece_length as int) as nat;
        let r = p % piece_length as int;
        assert(p == i * piece_length + r && 0 <= r < piece_length && i < n) by (nonlinear_arith)
            requires
                piece_length > 0,
                0 <= p < length,
                i == p / piece_length as int,
                r == p % piece_length as int,
                length <= n * piece_length,
        ;
        lemma_chunk_bounds(length, piece_length, i, i);
        if i + 1 == n {
            assert(r < piece_length_at(length, piece_length, i));
        }
        let cf = chunk(f, length, piece_length, i);
        let cg = chunk(g, length, piece_length, i);
        assert(cf[r] == f[p]);
        assert(cg[r] == g[p]);
    }
    assert(f =~= g);
}

/// The pieces one after another.
pub open spec fn joined(pieces: Seq<Seq<u8>>) -> Seq<u8>
    decreases pieces.len(),
{
    if pieces.len() == 0 {
        Seq::empty()
    } else {
        joined(pieces.drop_last()) + pieces.last()
    }
}

/// `pieces` are the pieces of a file of `length` bytes: one for each index,
/// each of its length.
pub open spec fn pieces_of(length: nat, piece_length: nat, pieces: Seq<Seq<u8>>) -> bool {
    &&& pieces.len() == piece_count(length, piece_length)
    &&& forall|i: int|
        0 <= i < pieces.len() ==> (#[trigger] pieces[i]).len() == piece_length_at(
            length,
            piece_length,
            i as nat,
        )
}

/// The first `m` pieces, joined, hold each of them in its place.
proof fn lemma_joined(length: nat, piece_length: nat, pieces: Seq<Seq<u8>>, m: nat)
    requires
        length > 0,
        piece_length > 0,
        pieces_of(length, piece_length, pieces),
        m <= pieces.len(),
    ensures
        joined(pieces.take(m as int)).len() == if m == pieces.len() {
            length
        } else {
            m * piece_length
        },
        forall|i: nat|
            i < m ==> joined(pieces.take(m as int)).subrange(
                (i * piece_length) as int,
                (i * piece_length + piece_length_at(length, piece_length, i)) as int,
            ) == #[trigger] pieces[i as int],
    decreases m,
{
    law_piece_count(length, piece_length);
    let n = piece_count(length, piece_length);
    if m == 0 {
        assert(0 * piece_length == 0) by (nonlinear_arith);
    } else {
        let k = (m - 1) as nat;
        let front = pieces.take(k as int);
        let upto = pieces.take(m as int);
        lemma_joined(length, piece_length, pieces, k);
        assert(upto.drop_last() =~= front);
        assert(upto.last() == pieces[k as int]);
        assert(joined(front).len() == k * piece_length);
        assert(k * piece_length + piece_length == m * piece_length) by (nonlinear_arith)
            requires
                m == k + 1,
        ;
        assert forall|i: nat| i < m implies joined(upto).subrange(
            (i * piece_length) as int,
            (i * piece_length + piece_length_at(length, piece_length, i)) as int,
        ) == #[trigger] pieces[i as int] by {
            if i < k {
                lemma_chunk_bounds(length, piece_length, i, k);
                assert(joined(upto).subrange(
                    (i * piece_length) as int,
                    (i * piece_length + piece_length_at(length, piece_length, i)) as int,
                ) =~= joined(front).subrange(
                    (i * piece_length) as int,
                    (i * piece_length + piece_length_at(length, piece_length, i)) as int,
                ));
            } else {
                assert(joined(upto).subrange(
                    (i * piece_length) as int,
                    (i * piece_length + piece_length_at(length, piece_length, i)) as int,
                ) =~= pieces[k as int]);
            }
        }
    }
}

/// In every order of arrival the file ends as the pieces joined in index
/// order: where each arrival brings the piece of its index and every index
/// comes at least once, the dispatcher's file is `joined(pieces)`.
pub proof fn law_order_does_not_matter(
    start: Seq<u8>,
    length: nat,
    piece_length: nat,
    pieces: Seq<Seq<u8>>,
    arrivals: Seq<Arrival>,
)
    requires
        length > 0,
        piece_length > 0,
        start.len() == length,
        pieces_of(length, piece_length, pieces),
        forall|k: int|
            0 <= k < arrivals.len() ==> (#[trigger] arrivals[k]).index < pieces.len()
                && arrivals[k].data == pieces[arrivals[k].index as int],
        forall|i: nat| i < pieces.len() ==> first_for(arrivals, i) is Some,
    ensures
        place_all(Assembly { file: start, done: Set::empty() }, piece_length, arrivals).file
            == joined(pieces),
{
    let end = place_all(Assembly { file: start, done: Set::empty() }, piece_length, arrivals);
    assert forall|k: int| 0 <= k < arrivals.len() implies fits(
        length,
        piece_length,
        #[trigger] arrivals[k],
    ) by {
        assert(pieces[arrivals[k].index as int].len() == piece_length_at(
            length,
            piece_length,
            arrivals[k].index,
        ));
    }
    law_any_order(start, length, piece_length, arrivals);
    lemma_joined(length, piece_length, pieces, pieces.len());
    assert(pieces.take(pieces.len() as int) =~= pieces);
    assert forall|i: nat| i < piece_count(length, piece_length) implies #[trigger] chunk(
        end.file,
        length,
        piece_length,
        i,
    ) == chunk(joined(pieces), length, piece_length, i) by {
        lemma_first_for(arrivals, i);
        assert(chunk(joined(pieces), length, piece_length, i) == pieces[i as int]);
    }
    law_file_is_its_pieces(end.file, joined(pieces), length, piece_length);
}

/// What `first_for` finds is the data of an arrival for that index.
proof fn lemma_first_for(arrivals: Seq<Arrival>, index: nat)
    ensures
        first_for(arrivals, index) matches Some(data) ==> exists|k: int|
            0 <= k < arrivals.len() && (#[trigger] arrivals[k]).index == index && arrivals[k].data
                == data,
    decreases arrivals.len(),
{
    if arrivals.len() > 0 {
        let front = arrivals.drop_last();
        lemma_first_for(front, index);
        match first_for(front, index) {
            Some(data) => {
                let k = choose|k: int|
                    0 <= k < front.len() && (#[trigger] front[k]).index == index && front[k].data
                        == data;
                assert(arrivals[k] == front[k]);
            },
            None => {
                if arrivals.last().index == index {
                    assert(arrivals[arrivals.len() - 1].index == index);
                }
            },
        }
    }
}

/// What became of a piece that reached the dispatcher.
#[derive(Debug, Clone, Copy, PartialEq, Eq, Structural)]
pub enum Placement {
    /// It is the first for its index and was written at this offset.
    Written(usize),
    /// A piece for its index had come before; it was dropped.
    Duplicate,
    /// It is no piece of this torrent; it was dropped.
    Foreign,
}

/// Whether the download goes on.
#[derive(Debug, Clone, Copy, PartialEq, Eq, Structural)]
pub enum Progress {
    /// Every piece is in the file.
    Complete,
    /// Pieces are missing and workers are at it.
    Continue,
    /// Pieces are missing and no worker is left.
    NoProgress,
}

/// How many of the flags are set.
pub open spec fn count_set(flags: Seq<bool>) -> nat
    decreases flags.len(),
{
    if flags.len() == 0 {
        0
    } else {
        count_set(flags.drop_last()) + if flags.last() { 1nat } else { 0nat }
    }
}

/// No more flags are set than there are, and all are set where as many are
/// set as there are.
pub proof fn lemma_count_set(flags: Seq<bool>)
    ensures
        count_set(flags) <= flags.len(),
        count_set(flags) == flags.len() <==> forall|i: int| 0 <= i < flags.len() ==> flags[i],
    decreases flags.len(),
{
    if flags.len() > 0 {
        let front = flags.drop_last();
        lemma_count_set(front);
        if count_set(flags) == flags.len() {
            assert forall|i: int| 0 <= i < flags.len() implies flags[i] by {
                if i < front.len() {
                    assert(front[i] == flags[i]);
                }
            }
        }
        if forall|i: int| 0 <= i < flags.len() ==> flags[i] {
            assert forall|i: int| 0 <= i < front.len() implies front[i] by {
                assert(front[i] == flags[i]);
            }
        }
    }
}

/// Setting a flag that was not set adds one to the count.
pub proof fn lemma_count_set_update(flags: Seq<bool>, i: int)
    requires
        0 <= i < flags.len(),
        !flags[i],
    ensures
        count_set(flags.update(i, true)) == count_set(flags) + 1,
    decreases flags.len(),
{
    let after = flags.update(i, true);
    if i == flags.len() - 1 {
        assert(after.drop_last() =~= flags.drop_last());
    } else {
        assert(after.drop_last() =~= flags.drop_last().update(i, true));
        lemma_count_set_update(flags.drop_last(), i);
    }
}

/// Copies `data` into `file` at `offset`.
fn write_into(file: &mut Vec<u8>, offset: usize, data: &[u8])
    requires
        offset + data@.len() <= old(file)@.len(),
    ensures
        final(file)@ == write_at(old(file)@, offset as nat, data@),
{
    let mut k: usize = 0;
    assert(file@.len() == file.len());
    while k < data.len()
        invariant
            k <= data.len(),
            offset + data@.len() <= file@.len(),
            file@.len() <= usize::MAX,
            file@.len() == old(file)@.len(),
            forall|p: int| 0 <= p < offset ==> file@[p] == old(file)@[p],
            forall|p: int| offset <= p < offset + k ==> file@[p] == data@[p - offset],
            forall|p: int| offset + k <= p < file@.len() ==> file@[p] == old(file)@[p],
        decreases data.len() - k,
    {
        file.set(offset + k, data[k]);
        k += 1;
    }
    assert(file@ =~= write_at(old(file)@, offset as nat, data@));
}

/// Collects the verified pieces of one download into the file.
#[derive(Debug)]
pub struct Dispatcher {
    length: usize,
    piece_length: usize,
    hashes: Vec<PieceHash>,
    done: Vec<bool>,
    completed: usize,
    file: Vec<u8>,
}

impl Dispatcher {
    pub closed spec fn length(&self) -> nat {
        self.length as nat
    }

    pub closed spec fn piece_length(&self) -> nat {
        self.piece_length as nat
    }

    /// The digests that the torrent names, in piece order.
    pub closed spec fn hashes(&self) -> Seq<Seq<u8>> {
        Seq::new(self.hashes@.len(), |i: int| self.hashes@[i]@)
    }

    /// The file so far, and which pieces are in it.
    pub closed spec fn assembly(&self) -> Assembly {
        Assembly {
            file: self.file@,
            done: Set::new(|i: nat| i < self.done@.len() && self.done@[i as int]),
        }
    }

    /// How many pieces are in the file.
    pub closed spec fn completed(&self) -> nat {
        self.completed as nat
    }

    /// The file has the torrent's length, there is a digest for each piece,
    /// the count of pieces done is right, and each piece that is in the file
    /// has the digest that the torrent names for it. This holds of every
    /// dispatcher.
    #[verifier::type_invariant]
    closed spec fn sound(&self) -> bool {
        &&& consistent(self.length as nat, self.piece_length as nat, self.hashes@.len() * 20)
        &&& self.done@.len() == self.hashes@.len()
        &&& self.file@.len() == self.length
        &&& self.completed == count_set(self.done@)
        &&& forall|i: int|
            0 <= i < self.done@.len() && self.done@[i] ==> sha1_digest(
                #[trigger] chunk(self.file@, self.length as nat, self.piece_length as nat, i as nat),
            ) == self.hashes@[i]@
    }

    /// A dispatcher for the download `req`, with no piece in the file yet.
    pub fn new(req: &DownloadRequest) -> (dispatcher: Dispatcher)
        requires
            req.wf(),
        ensures
            dispatcher.length() == req.length,
            dispatcher.piece_length() == req.piece_length,
            dispatcher.hashes().len() == req.pieces@.len(),
            forall|i: int|
                0 <= i < req.pieces@.len() ==> #[trigger] dispatcher.hashes()[i]
                    == req.pieces@[i]@,
            dispatcher.assembly().file == Seq::new(req.length as nat, |i: int| 0u8),
            dispatcher.assembly().done == Set::<nat>::empty(),
            dispatcher.completed() == 0,
    {
        let mut hashes: Vec<PieceHash> = Vec::new();
        let mut done: Vec<bool> = Vec::new();
        let mut i: usize = 0;
        while i < req.pieces.len()
            invariant
                i <= req.pieces@.len(),
                hashes@.len() == i,
                done@.len() == i,
                count_set(done@) == 0,
                forall|k: int| 0 <= k < i ==> (#[trigger] hashes@[k])@ == req.pieces@[k]@,
                forall|k: int| 0 <= k < i ==> !(#[trigger] done@[k]),
            decreases req.pieces@.len() - i,
        {
            hashes.push(req.pieces[i].clone());
            proof {
                assert(done@.push(false).drop_last() =~= done@);
            }
            done.push(false);
            i += 1;
        }
        let mut file: Vec<u8> = Vec::new();
        let mut k: usize = 0;
        while k < req.length
            invariant
                k <= req.length,
                file@.len() == k,
                forall|p: int| 0 <= p < k ==> file@[p] == 0,
            decreases req.length - k,
        {
            file.push(0);
            k += 1;
        }
        let dispatcher = Dispatcher {
            length: req.length,
            piece_length: req.piece_length,
            hashes,
            done,
            completed: 0,
            file,
        };
        assert(dispatcher.assembly().done =~= Set::<nat>::empty());
        assert(dispatcher.assembly().file =~= Seq::new(req.length as nat, |i: int| 0u8));
        dispatcher
    }

    /// Takes the state out and leaves that of a one-byte download in its
    /// place.
    fn take(&mut self) -> (state: Dispatcher)
        ensures
            state == *old(self),
    {
        let mut hashes: Vec<PieceHash> = Vec::new();
        hashes.push(PieceHash::new(Vec::new()));
        let mut done: Vec<bool> = Vec::new();
        done.push(false);
        let mut file: Vec<u8> = Vec::new();
        file.push(0);
        proof {
            assert(done@.drop_last() =~= Seq::<bool>::empty());
            assert(count_set(done@.drop_last()) == 0);
            assert(count_set(done@) == 0);
            assert(piece_count(1, 1) == 1);
            assert(consistent(1, 1, (hashes@.len() * 20) as nat));
        }
        let mut state = Dispatcher { length: 1, piece_length: 1, hashes, done, completed: 0, file };
        core::mem::swap(self, &mut state);
        state
    }

    /// Takes a verified piece. The first piece to come for an index is
    /// written into the file at `index * piece_length`; a later one for that
    /// index is dropped, and so is one that is no piece of this torrent.
    pub fn accept(&mut self, piece: &FullPiece) -> (placement: Placement)
        ensures
            final(self).length() == old(self).length(),
            final(self).piece_length() == old(self).piece_length(),
            final(self).hashes() == old(self).hashes(),
            match placement {
                Placement::Written(offset) => {
                    &&& belongs(*old(self), *piece)
                    &&& !old(self).assembly().done.contains(piece.piece().idx as nat)
                    &&& offset == piece.piece().idx * old(self).piece_length()
                    &&& final(self).assembly() == place(
                        old(self).assembly(),
                        old(self).piece_length(),
                        Arrival { index: piece.piece().idx as nat, data: piece.data() },
                    )
                    &&& final(self).completed() == old(self).completed() + 1
                },
                Placement::Duplicate => {
                    &&& belongs(*old(self), *piece)
                    &&& old(self).assembly().done.contains(piece.piece().idx as nat)
                    &&& final(self).assembly() == old(self).assembly()
                    &&& final(self).completed() == old(self).completed()
                },
                Placement::Foreign => {
                    &&& !belongs(*old(self), *piece)
                    &&& final(self).assembly() == old(self).assembly()
                    &&& final(self).completed() == old(self).completed()
                },
            },
    {
        proof {
            use_type_invariant(&*self);
        }
        let idx = piece.index();
        let data = piece.bytes();
        if idx >= self.hashes.len() {
            return Placement::Foreign;
        }
        let req = DownloadRequest {
            length: self.length,
            piece_length: self.piece_length,
            pieces: self.hashes.as_slice(),
            info_hash: &crate::torrent::InfoHash::new([0u8;20]),
        };
        if data.len() != req.piece_len(idx) {
            return Placement::Foreign;
        }
        if self.hashes[idx] != *piece.expected() {
            return Placement::Foreign;
        }
        if self.done[idx] {
            return Placement::Duplicate;
        }
        let ghost length = self.length as nat;
        let ghost unit = self.piece_length as nat;
        let ghost arrival = Arrival { index: idx as nat, data: data@ };
        let ghost before = self.assembly();
        proof {
            lemma_chunk_bounds(length, unit, idx as nat, idx as nat);
            lemma_place(before, length, unit, arrival);
            lemma_count_set_update(self.done@, idx as int);
            lemma_count_set(self.done@.update(idx as int, true));
            assert(idx * unit <= length) by (nonlinear_arith)
                requires
                    idx * unit + piece_length_at(length, unit, idx as nat) <= length,
            ;
        }
        let offset = idx * self.piece_length;
        let Dispatcher { length, piece_length, hashes, mut done, completed, mut file } = self.take();
        write_into(&mut file, offset, data.as_slice());
        done.set(idx, true);
        let next = Dispatcher { length, piece_length, hashes, done, completed: completed + 1, file };
        proof {
            assert(next.assembly().done =~= before.done.insert(idx as nat));
            assert forall|i: int| 0 <= i < next.done@.len() && next.done@[i] implies sha1_digest(
                #[trigger] chunk(next.file@, length as nat, unit, i as nat),
            ) == next.hashes@[i]@ by {
                if i != idx {
                    assert(chunk(next.file@, length as nat, unit, i as nat) == chunk(
                        before.file,
                        length as nat,
                        unit,
                        i as nat,
                    ));
                }
            }
        }
        *self = next;
        Placement::Written(offset)
    }

    /// Every piece is in the file.
    pub fn is_complete(&self) -> (complete: bool)
        ensures
            complete == (self.completed() == piece_count(self.length(), self.piece_length())),
            complete == (forall|i: nat|
                i < piece_count(self.length(), self.piece_length())
                    ==> self.assembly().done.contains(i)),
    {
        proof {
            use_type_invariant(self);
            lemma_count_set(self.done@);
            if forall|i: nat|
                i < piece_count(self.length(), self.piece_length())
                    ==> self.assembly().done.contains(i) {
                assert forall|i: int| 0 <= i < self.done@.len() implies self.done@[i] by {
                    assert(self.assembly().done.contains(i as nat));
                }
            }
        }
        self.completed == self.done.len()
    }

    /// Whether the download goes on, given how many workers are still at it:
    /// it is complete when every piece is in the file, and has failed when
    /// pieces are missing and no worker is left.
    pub fn progress(&self, workers_left: usize) -> (progress: Progress)
        ensures
            progress == if self.completed() == piece_count(self.length(), self.piece_length()) {
                Progress::Complete
            } else if workers_left == 0 {
                Progress::NoProgress
            } else {
                Progress::Continue
            },
    {
        if self.is_complete() {
            Progress::Complete
        } else if workers_left == 0 {
            Progress::NoProgress
        } else {
            Progress::Continue
        }
    }

    /// The number of pieces that are in the file.
    pub fn pieces_done(&self) -> (n: usize)
        ensures
            n == self.completed(),
            n <= piece_count(self.length(), self.piece_length()),
    {
        proof {
            use_type_invariant(self);
            lemma_count_set(self.done@);
        }
        self.completed
    }

    /// Ends the download. Once every piece is in it, the file is handed out:
    /// it has the torrent's length, and each piece of it has the digest that
    /// the torrent names for that piece. While pieces are missing there is no
    /// file.
    pub fn finish(self) -> (res: Result<Vec<u8>, DownloadError>)
        ensures
            match res {
                Ok(file) => {
                    &&& self.completed() == piece_count(self.length(), self.piece_length())
                    &&& file@ == self.assembly().file
                    &&& file@.len() == self.length()
                    &&& forall|i: nat|
                        i < piece_count(self.length(), self.piece_length()) ==> sha1_digest(
                            #[trigger] chunk(file@, self.length(), self.piece_length(), i),
                        ) == self.hashes()[i as int]
                },
                Err(e) => e == DownloadError::NoProgress && self.completed() != piece_count(
                    self.length(),
                    self.piece_length(),
                ),
            },
    {
        if !self.is_complete() {
            return Err(DownloadError::NoProgress);
        }
        proof {
            use_type_invariant(&self);
            assert forall|i: nat|
                i < piece_count(self.length(), self.piece_length()) implies sha1_digest(
                #[trigger] chunk(self.file@, self.length(), self.piece_length(), i),
            ) == self.hashes()[i as int] by {
                let k = i as int;
                assert(self.assembly().done.contains(i));
                assert(self.done@[k]);
                assert(sha1_digest(
                    chunk(self.file@, self.length as nat, self.piece_length as nat, k as nat),
                ) == self.hashes@[k]@);
            }
        }
        Ok(self.file)
    }

    /// The file as it stands. It has the torrent's length, and the place of
    /// each piece that is in it holds bytes with the digest that the torrent
    /// names for that piece.
    pub fn file(&self) -> (file: &Vec<u8>)
        ensures
            file@ == self.assembly().file,
            file@.len() == self.length(),
            forall|i: nat|
                self.assembly().done.contains(i) ==> sha1_digest(
                    #[trigger] chunk(file@, self.length(), self.piece_length(), i),
                ) == self.hashes()[i as int],
    {
        proof {
            use_type_invariant(self);
            assert forall|i: nat| self.assembly().done.contains(i) implies sha1_digest(
                #[trigger] chunk(self.file@, self.length(), self.piece_length(), i),
            ) == self.hashes()[i as int] by {
                let k = i as int;
                assert(self.done@[k]);
                assert(sha1_digest(
                    chunk(self.file@, self.length as nat, self.piece_length as nat, k as nat),
                ) == self.hashes@[k]@);
            }
        }
        &self.file
    }
}

/// The piece is one of the torrent's: its index names a piece, and it has
/// that piece's length and digest.
pub open spec fn belongs(dispatcher: Dispatcher, piece: FullPiece) -> bool {
    &&& piece.piece().idx < dispatcher.hashes().len()
    &&& piece.piece().len == piece_length_at(
        dispatcher.length(),
        dispatcher.piece_length(),
        piece.piece().idx as nat,
    )
    &&& piece.piece().hash@ == dispatcher.hashes()[piece.piece().idx as int]
}

} // verus!
