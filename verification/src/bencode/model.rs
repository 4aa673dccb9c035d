//! The value tree and its mathematical model.

use vstd::prelude::*;

verus! {

/// Why a byte string is not bencode.
#[derive(Debug, Clone, Copy, PartialEq, Eq, Structural)]
pub enum BencodeError {
    /// The first byte starts none of the four kinds.
    InvalidLeadingByte,
    /// The input ends inside a value.
    TruncatedInput,
    /// An integer is empty, has a leading zero, holds a foreign byte or leaves
    /// `i64`; or a string length is not followed by `:`.
    BadInteger,
    /// The integer `-0`.
    NegativeZero,
    /// A string length that does not fit in 64 bits.
    LengthOverflow,
    /// A dictionary key that is not a byte string.
    BadDictKey,
    /// A dictionary that binds one key twice.
    DuplicateKey,
}

/// The mathematical model of a bencode value. A dictionary is the sequence of
/// its entries; in a well-formed value the keys strictly increase.
pub enum Term {
    Int(i64),
    Bytes(Seq<u8>),
    List(Seq<Term>),
    Dict(Seq<(Seq<u8>, Term)>),
}

/// Lexicographic order on byte strings: `a` sorts strictly before `b`.
pub open spec fn lex_lt(a: Seq<u8>, b: Seq<u8>) -> bool
    decreases a.len(),
{
    if b.len() == 0 {
        false
    } else if a.len() == 0 {
        true
    } else if a[0] != b[0] {
        a[0] < b[0]
    } else {
        lex_lt(a.skip(1), b.skip(1))
    }
}

/// The keys of `entries` strictly increase, so no key occurs twice.
pub open spec fn keys_sorted(entries: Seq<(Seq<u8>, Term)>) -> bool {
    forall|i: int, j: int|
        0 <= i < j < entries.len() ==> lex_lt(#[trigger] entries[i].0, #[trigger] entries[j].0)
}

/// Some entry of `entries` has the key `key`.
pub open spec fn has_key(entries: Seq<(Seq<u8>, Term)>, key: Seq<u8>) -> bool {
    exists|i: int| 0 <= i < entries.len() && (#[trigger] entries[i]).0 == key
}

/// The value that `entries` binds to `key`, if any: that of the first entry
/// with the key.
pub open spec fn lookup(entries: Seq<(Seq<u8>, Term)>, key: Seq<u8>) -> Option<Term>
    decreases entries.len(),
{
    if entries.len() == 0 {
        None
    } else if entries[0].0 == key {
        Some(entries[0].1)
    } else {
        lookup(entries.skip(1), key)
    }
}

/// `lookup` finds nothing exactly where no entry has the key, and where the
/// keys increase it finds the one entry that has it.
pub proof fn lemma_lookup(entries: Seq<(Seq<u8>, Term)>, key: Seq<u8>)
    ensures
        lookup(entries, key) is None <==> !has_key(entries, key),
        forall|i: int|
            keys_sorted(entries) && 0 <= i < entries.len() && (#[trigger] entries[i]).0 == key
                ==> lookup(entries, key) == Some(entries[i].1),
    decreases entries.len(),
{
    if entries.len() > 0 {
        let tail = entries.skip(1);
        lemma_lookup(tail, key);
        if entries[0].0 == key {
            assert forall|i: int|
                keys_sorted(entries) && 0 <= i < entries.len() && (#[trigger] entries[i]).0
                    == key implies lookup(entries, key) == Some(entries[i].1) by {
                if i > 0 {
                    lemma_lex_lt_irreflexive(key);
                    assert(lex_lt(entries[0].0, entries[i].0));
                }
            }
        } else {
            if has_key(tail, key) {
                let j = choose|j: int| 0 <= j < tail.len() && (#[trigger] tail[j]).0 == key;
                assert(entries[j + 1].0 == key);
            }
            if has_key(entries, key) {
                let j = choose|j: int| 0 <= j < entries.len() && (#[trigger] entries[j]).0 == key;
                assert(tail[j - 1].0 == key);
            }
            assert forall|i: int|
                keys_sorted(entries) && 0 <= i < entries.len() && (#[trigger] entries[i]).0
                    == key implies lookup(entries, key) == Some(entries[i].1) by {
                assert(tail[i - 1] == entries[i]);
                assert forall|a: int, b: int| 0 <= a < b < tail.len() implies lex_lt(
                    #[trigger] tail[a].0,
                    #[trigger] tail[b].0,
                ) by {
                    assert(tail[a] == entries[a + 1] && tail[b] == entries[b + 1]);
                }
            }
        }
    }
}

/// How many entries at the front of `entries` does `key` come after, where
/// the keys of `entries` increase.
pub open spec fn rank(entries: Seq<(Seq<u8>, Term)>, key: Seq<u8>) -> nat
    decreases entries.len(),
{
    if entries.len() == 0 {
        0
    } else if lex_lt(entries.last().0, key) {
        entries.len()
    } else {
        rank(entries.drop_last(), key)
    }
}

/// `entries` with `(key, value)` put in at the place that its key asks for.
pub open spec fn insert_entry(entries: Seq<(Seq<u8>, Term)>, key: Seq<u8>, value: Term) -> Seq<
    (Seq<u8>, Term),
> {
    entries.insert(rank(entries, key) as int, (key, value))
}

/// No byte string sorts before itself.
pub proof fn lemma_lex_lt_irreflexive(a: Seq<u8>)
    ensures
        !lex_lt(a, a),
    decreases a.len(),
{
    if a.len() > 0 {
        lemma_lex_lt_irreflexive(a.skip(1));
    }
}

/// Of two different byte strings one sorts before the other.
pub proof fn lemma_lex_lt_total(a: Seq<u8>, b: Seq<u8>)
    ensures
        lex_lt(a, b) || a == b || lex_lt(b, a),
        !(lex_lt(a, b) && lex_lt(b, a)),
    decreases a.len(),
{
    if a.len() > 0 && b.len() > 0 && a[0] == b[0] {
        lemma_lex_lt_total(a.skip(1), b.skip(1));
        if a.skip(1) == b.skip(1) {
            assert(a =~= seq![a[0]] + a.skip(1));
            assert(b =~= seq![b[0]] + b.skip(1));
        }
    } else if a.len() == 0 && b.len() == 0 {
        assert(a =~= b);
    }
}

/// What sorts before a byte string sorts before all that the string sorts
/// before.
pub proof fn lemma_lex_lt_transitive(a: Seq<u8>, b: Seq<u8>, c: Seq<u8>)
    requires
        lex_lt(a, b),
        lex_lt(b, c),
    ensures
        lex_lt(a, c),
    decreases a.len(),
{
    if a.len() > 0 && a[0] == b[0] && b[0] == c[0] {
        lemma_lex_lt_transitive(a.skip(1), b.skip(1), c.skip(1));
    }
}

/// Where the keys of `entries` increase, `rank` is the one place `p` that
/// parts the keys before `key` from the others.
pub proof fn lemma_rank_is(entries: Seq<(Seq<u8>, Term)>, key: Seq<u8>, p: int)
    requires
        0 <= p <= entries.len(),
        forall|i: int| 0 <= i < p ==> lex_lt((#[trigger] entries[i]).0, key),
        forall|i: int| p <= i < entries.len() ==> !lex_lt((#[trigger] entries[i]).0, key),
    ensures
        rank(entries, key) == p,
    decreases entries.len(),
{
    if entries.len() > 0 {
        if lex_lt(entries.last().0, key) {
            assert(p == entries.len());
        } else {
            lemma_rank_is(entries.drop_last(), key, p);
        }
    }
}

/// The keys before the rank of `key` sort before it; from there on none does.
pub proof fn lemma_rank_parts(entries: Seq<(Seq<u8>, Term)>, key: Seq<u8>)
    requires
        keys_sorted(entries),
    ensures
        0 <= rank(entries, key) <= entries.len(),
        forall|i: int| 0 <= i < rank(entries, key) ==> lex_lt((#[trigger] entries[i]).0, key),
        forall|i: int|
            rank(entries, key) <= i < entries.len() ==> !lex_lt((#[trigger] entries[i]).0, key),
    decreases entries.len(),
{
    if entries.len() > 0 {
        let last = entries.len() - 1;
        if lex_lt(entries.last().0, key) {
            assert forall|i: int| 0 <= i < entries.len() implies lex_lt(
                (#[trigger] entries[i]).0,
                key,
            ) by {
                if i < last {
                    lemma_lex_lt_transitive(entries[i].0, entries[last].0, key);
                }
            }
        } else {
            let front = entries.drop_last();
            assert forall|i: int, j: int| 0 <= i < j < front.len() implies lex_lt(
                #[trigger] front[i].0,
                #[trigger] front[j].0,
            ) by {
                assert(front[i] == entries[i] && front[j] == entries[j]);
            }
            lemma_rank_parts(front, key);
            assert forall|i: int| rank(entries, key) <= i < entries.len() implies !lex_lt(
                (#[trigger] entries[i]).0,
                key,
            ) by {
                if i < last {
                    assert(front[i] == entries[i]);
                }
            }
            assert forall|i: int| 0 <= i < rank(entries, key) implies lex_lt(
                (#[trigger] entries[i]).0,
                key,
            ) by {
                assert(front[i] == entries[i]);
            }
        }
    }
}

/// Putting a new key into increasing keys leaves them increasing.
pub proof fn lemma_insert_entry_sorted(entries: Seq<(Seq<u8>, Term)>, key: Seq<u8>, value: Term)
    requires
        keys_sorted(entries),
        !has_key(entries, key),
    ensures
        keys_sorted(insert_entry(entries, key, value)),
{
    lemma_rank_parts(entries, key);
    let p = rank(entries, key) as int;
    let out = insert_entry(entries, key, value);
    assert forall|i: int, j: int| 0 <= i < j < out.len() implies lex_lt(
        #[trigger] out[i].0,
        #[trigger] out[j].0,
    ) by {
        if j < p {
            assert(out[i] == entries[i] && out[j] == entries[j]);
        } else if j == p {
            assert(out[i] == entries[i]);
        } else if i < p {
            assert(out[i] == entries[i] && out[j] == entries[j - 1]);
        } else if i == p {
            assert(out[j] == entries[j - 1]);
            lemma_lex_lt_total(entries[j - 1].0, key);
        } else {
            assert(out[i] == entries[i - 1] && out[j] == entries[j - 1]);
        }
    }
}

impl Term {
    /// Every dictionary in the value, at any depth, has strictly increasing
    /// keys, and no byte string or key is longer than 64 bits can count.
    pub open spec fn wf(self) -> bool
        decreases self,
    {
        match self {
            Term::Int(_) => true,
            Term::Bytes(bytes) => bytes.len() <= u64::MAX,
            Term::List(items) => forall|i: int| 0 <= i < items.len() ==> (#[trigger] items[i]).wf(),
            Term::Dict(entries) => keys_sorted(entries) && forall|i: int|
                0 <= i < entries.len() ==> (#[trigger] entries[i]).0.len() <= u64::MAX
                    && entries[i].1.wf(),
        }
    }
}

/// A bencode dictionary: byte-string keys bound to values, kept in ascending
/// key order.
#[derive(Debug, PartialEq, Eq)]
pub struct Dict {
    entries: Vec<(Vec<u8>, Value)>,
}

/// A decoded bencode value.
#[derive(Debug, PartialEq, Eq)]
pub enum Value {
    Int(i64),
    Bytes(Vec<u8>),
    List(Vec<Value>),
    Dict(Dict),
}

/// The models of the values in `items`, in order.
pub open spec fn view_items(items: Seq<Value>) -> Seq<Term>
    decreases items,
{
    if items.len() == 0 {
        Seq::empty()
    } else {
        view_items(items.drop_last()).push(items.last().view())
    }
}

/// The models of the entries in `entries`, in order.
pub open spec fn view_entries(entries: Seq<(Vec<u8>, Value)>) -> Seq<(Seq<u8>, Term)>
    decreases entries,
{
    if entries.len() == 0 {
        Seq::empty()
    } else {
        view_entries(entries.drop_last()).push((entries.last().0@, entries.last().1.view()))
    }
}

/// `view_items` keeps length and order.
pub proof fn lemma_view_items(items: Seq<Value>)
    ensures
        view_items(items).len() == items.len(),
        forall|i: int| 0 <= i < items.len() ==> (#[trigger] view_items(items)[i]) == items[i].view(),
    decreases items.len(),
{
    if items.len() > 0 {
        lemma_view_items(items.drop_last());
        assert(view_items(items) == view_items(items.drop_last()).push(items.last().view()));
    } else {
        assert(view_items(items) == Seq::<Term>::empty());
    }
}

/// `view_entries` keeps length and order.
pub proof fn lemma_view_entries(entries: Seq<(Vec<u8>, Value)>)
    ensures
        view_entries(entries).len() == entries.len(),
        forall|i: int|
            0 <= i < entries.len() ==> (#[trigger] view_entries(entries)[i]) == (
                entries[i].0@,
                entries[i].1.view(),
            ),
    decreases entries.len(),
{
    if entries.len() > 0 {
        lemma_view_entries(entries.drop_last());
        assert(view_entries(entries) == view_entries(entries.drop_last()).push(
            (entries.last().0@, entries.last().1.view()),
        ));
    } else {
        assert(view_entries(entries) == Seq::<(Seq<u8>, Term)>::empty());
    }
}

impl View for Value {
    type V = Term;

    open spec fn view(&self) -> Term
        decreases self,
    {
        match self {
            Value::Int(n) => Term::Int(*n),
            Value::Bytes(b) => Term::Bytes(b@),
            Value::List(items) => Term::List(view_items(items@)),
            Value::Dict(d) => Term::Dict(d.view()),
        }
    }
}

impl View for Dict {
    type V = Seq<(Seq<u8>, Term)>;

    closed spec fn view(&self) -> Seq<(Seq<u8>, Term)>
        decreases self,
    {
        view_entries(self.entries@)
    }
}

/// How one key stands to another.
#[derive(Debug, Clone, Copy, PartialEq, Eq, Structural)]
pub enum KeyOrder {
    Before,
    Same,
    After,
}

/// Tells how `a` stands to `b` in raw byte order.
pub fn key_order(a: &[u8], b: &[u8]) -> (r: KeyOrder)
    ensures
        r == KeyOrder::Before <==> lex_lt(a@, b@),
        r == KeyOrder::Same <==> a@ == b@,
        r == KeyOrder::After <==> lex_lt(b@, a@),
{
    let mut i: usize = 0;
    proof {
        assert(a@.skip(0) == a@);
        assert(b@.skip(0) == b@);
        lemma_lex_lt_total(a@, b@);
        lemma_lex_lt_irreflexive(a@);
    }
    while i < a.len() && i < b.len()
        invariant
            i <= a.len(),
            i <= b.len(),
            lex_lt(a@, b@) == lex_lt(a@.skip(i as int), b@.skip(i as int)),
            lex_lt(b@, a@) == lex_lt(b@.skip(i as int), a@.skip(i as int)),
        decreases a.len() - i,
    {
        if a[i] < b[i] {
            return KeyOrder::Before;
        }
        if a[i] > b[i] {
            return KeyOrder::After;
        }
        proof {
            assert(a@.skip(i as int).skip(1) == a@.skip(i + 1));
            assert(b@.skip(i as int).skip(1) == b@.skip(i + 1));
        }
        i += 1;
    }
    if i < b.len() {
        KeyOrder::Before
    } else if i < a.len() {
        KeyOrder::After
    } else {
        KeyOrder::Same
    }
}

impl Dict {
    /// The keys strictly increase.
    pub open spec fn wf(&self) -> bool {
        keys_sorted(self@)
    }

    /// Every dictionary keeps its keys strictly increasing.
    #[verifier::type_invariant]
    closed spec fn ordered(&self) -> bool {
        keys_sorted(view_entries(self.entries@))
    }

    /// The dictionary without entries.
    pub fn new() -> (d: Dict)
        ensures
            d@ == Seq::<(Seq<u8>, Term)>::empty(),
            d.wf(),
    {
        Dict { entries: Vec::new() }
    }

    /// The number of entries.
    pub fn len(&self) -> (n: usize)
        ensures
            n == self@.len(),
            self.wf(),
    {
        proof {
            use_type_invariant(self);
            lemma_view_entries(self.entries@);
        }
        self.entries.len()
    }

    /// The key of the entry at place `i`, counted in ascending key order.
    pub fn key_at(&self, i: usize) -> (key: &Vec<u8>)
        requires
            i < self@.len(),
        ensures
            key@ == self@[i as int].0,
    {
        proof {
            lemma_view_entries(self.entries@);
        }
        &self.entries[i].0
    }

    /// The value of the entry at place `i`, counted in ascending key order.
    pub fn value_at(&self, i: usize) -> (value: &Value)
        requires
            i < self@.len(),
        ensures
            value@ == self@[i as int].1,
            decreases_to!(self => value),
    {
        proof {
            lemma_view_entries(self.entries@);
        }
        &self.entries[i].1
    }

    /// The place of the first entry whose key does not sort before `key`.
    fn position(&self, key: &[u8]) -> (p: usize)
        ensures
            p == rank(self@, key@),
            p <= self@.len(),
            self.wf(),
    {
        proof {
            use_type_invariant(self);
            lemma_view_entries(self.entries@);
        }
        let mut p: usize = 0;
        let mut passed = false;
        while !passed && p < self.entries.len()
            invariant
                p <= self.entries.len(),
                self.entries@.len() == self@.len(),
                forall|i: int| 0 <= i < p ==> lex_lt((#[trigger] self@[i]).0, key@),
                passed ==> p < self.entries.len() && !lex_lt(self@[p as int].0, key@),
            decreases self.entries.len() - p, if passed { 0int } else { 1int },
        {
            proof {
                lemma_view_entries(self.entries@);
            }
            match key_order(self.entries[p].0.as_slice(), key) {
                KeyOrder::Before => {
                    p += 1;
                },
                _ => {
                    passed = true;
                },
            }
        }
        proof {
            let entries = self@;
            assert forall|i: int| p <= i < entries.len() implies !lex_lt(
                (#[trigger] entries[i]).0,
                key@,
            ) by {
                if i > p && lex_lt(entries[i].0, key@) {
                    lemma_lex_lt_transitive(entries[p as int].0, entries[i].0, key@);
                }
            }
            lemma_rank_is(entries, key@, p as int);
        }
        p
    }

    /// The value bound to `key`, if there is one.
    pub fn get(&self, key: &[u8]) -> (found: Option<&Value>)
        ensures
            self.wf(),
            match found {
                Some(value) => lookup(self@, key@) == Some(value@),
                None => lookup(self@, key@) is None,
            },
    {
        proof {
            lemma_lookup(self@, key@);
        }
        let p = self.position(key);
        proof {
            lemma_view_entries(self.entries@);
            lemma_rank_parts(self@, key@);
        }
        if p < self.entries.len() {
            match key_order(self.entries[p].0.as_slice(), key) {
                KeyOrder::Same => {
                    assert(self@[p as int] == (key@, self.entries[p as int].1@));
                    return Some(&self.entries[p].1);
                },
                _ => {},
            }
        }
        proof {
            lemma_absent(self@, key@, p as int);
        }
        None
    }

    /// Binds `key` to `value` unless the dictionary has the key already; tells
    /// whether it did so.
    pub fn insert(&mut self, key: Vec<u8>, value: Value) -> (added: bool)
        ensures
            old(self).wf(),
            final(self).wf(),
            added == !has_key(old(self)@, key@),
            added ==> final(self)@ == insert_entry(old(self)@, key@, value@),
            !added ==> final(self)@ == old(self)@,
    {
        let p = self.position(key.as_slice());
        proof {
            lemma_view_entries(self.entries@);
            lemma_rank_parts(self@, key@);
        }
        if p < self.entries.len() {
            match key_order(self.entries[p].0.as_slice(), key.as_slice()) {
                KeyOrder::Same => {
                    assert(self@[p as int].0 == key@);
                    return false;
                },
                _ => {},
            }
        }
        proof {
            lemma_absent(self@, key@, p as int);
            lemma_insert_entry_sorted(self@, key@, value@);
        }
        let ghost before = self.entries@;
        let ghost pair = (key@, value@);
        let mut entries: Vec<(Vec<u8>, Value)> = Vec::new();
        proof {
            lemma_view_entries(entries@);
        }
        core::mem::swap(&mut self.entries, &mut entries);
        entries.insert(p, (key, value));
        proof {
            lemma_view_entries(before);
            lemma_view_entries(entries@);
            assert(view_entries(entries@) =~= view_entries(before).insert(p as int, pair));
        }
        core::mem::swap(&mut self.entries, &mut entries);
        true
    }
}

/// Increasing keys that pass from before `key` to after it at `p`, where the
/// entry at `p` has another key, do not hold `key`.
pub proof fn lemma_absent(entries: Seq<(Seq<u8>, Term)>, key: Seq<u8>, p: int)
    requires
        0 <= p <= entries.len(),
        forall|i: int| 0 <= i < p ==> lex_lt((#[trigger] entries[i]).0, key),
        forall|i: int| p <= i < entries.len() ==> !lex_lt((#[trigger] entries[i]).0, key),
        keys_sorted(entries),
        p < entries.len() ==> entries[p].0 != key,
    ensures
        !has_key(entries, key),
{
    assert forall|i: int| 0 <= i < entries.len() implies (#[trigger] entries[i]).0 != key by {
        lemma_lex_lt_irreflexive(key);
        if i > p {
            lemma_lex_lt_irreflexive(entries[i].0);
            if entries[i].0 == key {
                // entries[p] < entries[i] == key, yet entries[p] is not before key
                assert(lex_lt(entries[p].0, entries[i].0));
            }
        }
    }
}

} // verus!
