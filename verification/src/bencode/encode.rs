//! The canonical encoder.

use vstd::prelude::*;
use super::grammar::{
    BENCODE_DICT_PREFIX, BENCODE_END, BENCODE_INT_PREFIX, BENCODE_LIST_PREFIX, BENCODE_MINUS,
    BENCODE_STRING_SPLIT_CHAR, BENCODE_ZERO,
};
use super::model::{lemma_view_items, view_items, Dict, Term, Value};

verus! {

/// The decimal digits of `n`, without leading zeros.
pub open spec fn nat_text(n: nat) -> Seq<u8>
    decreases n,
{
    if n < 10 {
        seq![(BENCODE_ZERO + n) as u8]
    } else {
        nat_text(n / 10).push((BENCODE_ZERO + n % 10) as u8)
    }
}

/// The decimal digits of `n`, after a `-` where it is negative.
pub open spec fn int_text(n: int) -> Seq<u8> {
    if n < 0 {
        seq![BENCODE_MINUS] + nat_text((-n) as nat)
    } else {
        nat_text(n as nat)
    }
}

/// A byte string in bencode: its length, `:`, its bytes.
pub open spec fn encode_string(bytes: Seq<u8>) -> Seq<u8> {
    nat_text(bytes.len()) + seq![BENCODE_STRING_SPLIT_CHAR] + bytes
}

/// The bencode text of a value. Dictionary entries come out in the order in
/// which the value holds them, which in a well-formed value is ascending key
/// order.
pub open spec fn encode_term(v: Term) -> Seq<u8>
    decreases v,
{
    match v {
        Term::Int(n) => seq![BENCODE_INT_PREFIX] + int_text(n as int) + seq![BENCODE_END],
        Term::Bytes(bytes) => encode_string(bytes),
        Term::List(items) => seq![BENCODE_LIST_PREFIX] + encode_terms(items) + seq![
            BENCODE_END,
        ],
        Term::Dict(entries) => seq![BENCODE_DICT_PREFIX] + encode_pairs(entries) + seq![
            BENCODE_END,
        ],
    }
}

/// The texts of `items`, one after another.
pub open spec fn encode_terms(items: Seq<Term>) -> Seq<u8>
    decreases items,
{
    if items.len() == 0 {
        Seq::empty()
    } else {
        encode_term(items[0]) + encode_terms(items.skip(1))
    }
}

/// The texts of the keys and values of `entries`, one after another.
pub open spec fn encode_pairs(entries: Seq<(Seq<u8>, Term)>) -> Seq<u8>
    decreases entries,
{
    if entries.len() == 0 {
        Seq::empty()
    } else {
        encode_string(entries[0].0) + encode_term(entries[0].1) + encode_pairs(entries.skip(1))
    }
}

/// One more item adds its text at the end.
pub proof fn lemma_encode_terms_push(items: Seq<Term>, last: Term)
    ensures
        encode_terms(items.push(last)) == encode_terms(items) + encode_term(last),
    decreases items.len(),
{
    let all = items.push(last);
    if items.len() == 0 {
        assert(all.skip(1) =~= Seq::<Term>::empty());
        assert(encode_terms(all.skip(1)) =~= Seq::<u8>::empty());
        assert(encode_terms(all) =~= encode_term(last));
        assert(encode_terms(items) + encode_term(last) =~= encode_term(last));
    } else {
        assert(all.skip(1) =~= items.skip(1).push(last));
        lemma_encode_terms_push(items.skip(1), last);
        assert(encode_terms(all) =~= encode_terms(items) + encode_term(last));
    }
}

/// One more entry adds the texts of its key and value at the end.
pub proof fn lemma_encode_pairs_push(entries: Seq<(Seq<u8>, Term)>, last: (Seq<u8>, Term))
    ensures
        encode_pairs(entries.push(last)) == encode_pairs(entries) + encode_string(last.0)
            + encode_term(last.1),
    decreases entries.len(),
{
    let all = entries.push(last);
    if entries.len() == 0 {
        assert(all.skip(1) =~= Seq::<(Seq<u8>, Term)>::empty());
        assert(encode_pairs(all.skip(1)) =~= Seq::<u8>::empty());
        assert(encode_pairs(all) =~= encode_string(last.0) + encode_term(last.1));
        assert(encode_pairs(entries) + encode_string(last.0) + encode_term(last.1)
            =~= encode_string(last.0) + encode_term(last.1));
    } else {
        assert(all.skip(1) =~= entries.skip(1).push(last));
        lemma_encode_pairs_push(entries.skip(1), last);
        assert(encode_pairs(all) =~= encode_pairs(entries) + encode_string(last.0) + encode_term(
            last.1,
        ));
    }
}

/// Appends the decimal digits of `n`.
pub(crate) fn push_decimal(out: &mut Vec<u8>, n: u64)
    ensures
        final(out)@ == old(out)@ + nat_text(n as nat),
    decreases n,
{
    if n < 10 {
        out.push(BENCODE_ZERO + n as u8);
        assert(out@ =~= old(out)@ + nat_text(n as nat));
    } else {
        push_decimal(out, n / 10);
        out.push(BENCODE_ZERO + (n % 10) as u8);
        assert(out@ =~= old(out)@ + nat_text(n as nat));
    }
}

/// Appends a byte string in bencode.
fn push_string(out: &mut Vec<u8>, bytes: &[u8])
    ensures
        final(out)@ == old(out)@ + encode_string(bytes@),
{
    push_decimal(out, bytes.len() as u64);
    out.push(BENCODE_STRING_SPLIT_CHAR);
    out.extend_from_slice(bytes);
    assert(out@ =~= old(out)@ + encode_string(bytes@));
}

/// Appends the bencode text of `value`.
fn encode_into(value: &Value, out: &mut Vec<u8>)
    ensures
        final(out)@ == old(out)@ + encode_term(value@),
        value@.wf(),
    decreases value,
{
    match value {
        Value::Int(n) => {
            out.push(BENCODE_INT_PREFIX);
            if *n < 0 {
                out.push(BENCODE_MINUS);
                let magnitude: u64 = if *n == i64::MIN {
                    0x8000_0000_0000_0000
                } else {
                    (-*n) as u64
                };
                push_decimal(out, magnitude);
            } else {
                push_decimal(out, *n as u64);
            }
            out.push(BENCODE_END);
            assert(out@ =~= old(out)@ + encode_term(value@));
        },
        Value::Bytes(bytes) => {
            assert(bytes@.len() == bytes.len());
            push_string(out, bytes.as_slice());
        },
        Value::List(items) => {
            out.push(BENCODE_LIST_PREFIX);
            let ghost terms = view_items(items@);
            proof {
                lemma_view_items(items@);
                assert(terms.take(0) =~= Seq::<Term>::empty());
            }
            let mut i: usize = 0;
            while i < items.len()
                invariant
                    i <= items.len(),
                    terms == view_items(items@),
                    terms.len() == items.len(),
                    value == Value::List(*items),
                    out@ == old(out)@ + seq![BENCODE_LIST_PREFIX] + encode_terms(
                        terms.take(i as int),
                    ),
                    forall|k: int| 0 <= k < i ==> (#[trigger] terms[k]).wf(),
                decreases items.len() - i,
            {
                proof {
                    lemma_view_items(items@);
                    assert(terms.take(i + 1) =~= terms.take(i as int).push(terms[i as int]));
                    lemma_encode_terms_push(terms.take(i as int), terms[i as int]);
                }
                assert(value->List_0 == *items);
                assert(decreases_to!(value => value->List_0));
                encode_into(&items[i], out);
                assert(out@ =~= old(out)@ + seq![BENCODE_LIST_PREFIX] + encode_terms(
                    terms.take(i + 1),
                ));
                i += 1;
            }
            out.push(BENCODE_END);
            proof {
                assert(terms.take(items.len() as int) =~= terms);
                assert(out@ =~= old(out)@ + encode_term(value@));
            }
        },
        Value::Dict(dict) => {
            out.push(BENCODE_DICT_PREFIX);
            let ghost entries = dict@;
            proof {
                assert(entries.take(0) =~= Seq::<(Seq<u8>, Term)>::empty());
            }
            let n = dict.len();
            let mut i: usize = 0;
            while i < n
                invariant
                    i <= n,
                    n == entries.len(),
                    entries == dict@,
                    value == Value::Dict(*dict),
                    out@ == old(out)@ + seq![BENCODE_DICT_PREFIX] + encode_pairs(
                        entries.take(i as int),
                    ),
                    dict.wf(),
                    forall|k: int|
                        0 <= k < i ==> (#[trigger] entries[k]).0.len() <= u64::MAX
                            && entries[k].1.wf(),
                decreases n - i,
            {
                proof {
                    assert(entries.take(i + 1) =~= entries.take(i as int).push(entries[i as int]));
                    lemma_encode_pairs_push(entries.take(i as int), entries[i as int]);
                }
                let key = dict.key_at(i);
                assert(key@.len() == key.len());
                push_string(out, key.as_slice());
                let inner = dict.value_at(i);
                assert(value->Dict_0 == *dict);
                assert(decreases_to!(value => value->Dict_0));
                assert(decreases_to!(dict => inner));
                encode_into(inner, out);
                assert(out@ =~= old(out)@ + seq![BENCODE_DICT_PREFIX] + encode_pairs(
                    entries.take(i + 1),
                ));
                i += 1;
            }
            out.push(BENCODE_END);
            proof {
                assert(entries.take(n as int) =~= entries);
                assert(out@ =~= old(out)@ + encode_term(value@));
            }
        },
    }
}

/// The canonical bencode text of `value`: integers without redundant signs or
/// leading zeros, dictionary entries in ascending key order. Every value is
/// well-formed, so its text decodes to it again.
pub fn encode(value: &Value) -> (out: Vec<u8>)
    ensures
        out@ == encode_term(value@),
        value@.wf(),
{
    let mut out: Vec<u8> = Vec::new();
    encode_into(value, &mut out);
    assert(out@ =~= encode_term(value@));
    out
}

} // verus!
