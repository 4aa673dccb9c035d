//! What holds between the encoder and the decoder.

use vstd::prelude::*;
use super::grammar::{
    BENCODE_DICT_PREFIX, BENCODE_END, BENCODE_INT_PREFIX, BENCODE_LIST_PREFIX, BENCODE_MINUS,
    BENCODE_STRING_SPLIT_CHAR, BENCODE_ZERO,
};
use super::encode::{encode_pairs, encode_string, encode_term, encode_terms, nat_text};
use super::grammar::{
    decimal_value, digits_end, is_digit, lemma_digits_end_is, parse_int, parse_items, parse_pairs,
    parse_string, parse_value, sort_pairs,
};
use super::model::{
    has_key, insert_entry, keys_sorted, lemma_lex_lt_irreflexive, lemma_lex_lt_total,
    lemma_rank_is, lex_lt, lookup, rank, BencodeError, Term,
};

verus! {

/// The digits of a number are digits, write that number, and start with a
/// zero only for zero itself.
pub proof fn lemma_nat_text(n: nat)
    ensures
        nat_text(n).len() >= 1,
        forall|i: int| 0 <= i < nat_text(n).len() ==> is_digit(#[trigger] nat_text(n)[i]),
        decimal_value(nat_text(n)) == n,
        n > 0 ==> nat_text(n)[0] != BENCODE_ZERO,
        n == 0 ==> nat_text(n) == seq![BENCODE_ZERO],
    decreases n,
{
    if n < 10 {
        let t = nat_text(n);
        assert(t.drop_last() =~= Seq::<u8>::empty());
        assert(decimal_value(t.drop_last()) == 0);
    } else {
        lemma_nat_text(n / 10);
        let t = nat_text(n);
        assert(t.drop_last() =~= nat_text(n / 10));
        assert(t[0] == nat_text(n / 10)[0]);
    }
}

/// The text of an integer decodes to the integer, whatever follows it.
pub proof fn lemma_parse_int_text(n: i64, rest: Seq<u8>)
    ensures
        parse_int(encode_term(Term::Int(n)) + rest) == Ok::<_, BencodeError>(
            (Term::Int(n), encode_term(Term::Int(n)).len()),
        ),
{
    let text = encode_term(Term::Int(n));
    let s = text + rest;
    let magnitude: nat = if n < 0 { (-n) as nat } else { n as nat };
    let digits = nat_text(magnitude);
    lemma_nat_text(magnitude);
    let start: int = if n < 0 { 2 } else { 1 };
    let end = start + digits.len();
    assert(text.len() == end + 1);
    assert(s[0] == BENCODE_INT_PREFIX);
    assert forall|k: int| start <= k < end implies is_digit(#[trigger] s[k]) by {
        assert(s[k] == digits[k - start]);
    }
    assert(s[end] == BENCODE_END);
    if n < 0 {
        assert(s[1] == BENCODE_MINUS);
    } else {
        assert(s[1] == digits[0]);
    }
    lemma_digits_end_is(s, start, end);
    assert(s.subrange(start, end) =~= digits);
    assert(s[start] == digits[0]);
}

/// The text of a byte string decodes to the byte string, whatever follows it.
pub proof fn lemma_parse_string_text(bytes: Seq<u8>, rest: Seq<u8>)
    requires
        bytes.len() <= u64::MAX,
    ensures
        parse_string(encode_string(bytes) + rest) == Ok::<_, BencodeError>(
            (bytes, encode_string(bytes).len()),
        ),
{
    let text = encode_string(bytes);
    let s = text + rest;
    let digits = nat_text(bytes.len());
    lemma_nat_text(bytes.len());
    let end = digits.len() as int;
    assert forall|k: int| 0 <= k < end implies is_digit(#[trigger] s[k]) by {
        assert(s[k] == digits[k]);
    }
    assert(s[end] == BENCODE_STRING_SPLIT_CHAR);
    assert(s[0] == digits[0]);
    lemma_digits_end_is(s, 0, end);
    assert(s.subrange(0, end) =~= digits);
    assert(s.subrange(end + 1, end + 1 + bytes.len()) =~= bytes);
}

/// The text of a value starts with the byte that tells its kind, never with `e`.
pub proof fn lemma_encode_term_head(t: Term)
    ensures
        encode_term(t).len() >= 2,
        match t {
            Term::Int(_) => encode_term(t)[0] == BENCODE_INT_PREFIX,
            Term::Bytes(_) => is_digit(encode_term(t)[0]),
            Term::List(_) => encode_term(t)[0] == BENCODE_LIST_PREFIX,
            Term::Dict(_) => encode_term(t)[0] == BENCODE_DICT_PREFIX,
        },
{
    match t {
        Term::Int(n) => {},
        Term::Bytes(bytes) => {
            lemma_nat_text(bytes.len());
            assert(encode_term(t)[0] == nat_text(bytes.len())[0]);
        },
        Term::List(items) => {},
        Term::Dict(entries) => {},
    }
}

/// Keys that increase are in order already.
pub proof fn lemma_sort_pairs_sorted(entries: Seq<(Seq<u8>, Term)>)
    requires
        keys_sorted(entries),
    ensures
        sort_pairs(entries) == Ok::<_, BencodeError>(entries),
    decreases entries.len(),
{
    if entries.len() > 0 {
        let tail = entries.skip(1);
        let key = entries[0].0;
        assert forall|i: int, j: int| 0 <= i < j < tail.len() implies lex_lt(
            #[trigger] tail[i].0,
            #[trigger] tail[j].0,
        ) by {
            assert(tail[i] == entries[i + 1] && tail[j] == entries[j + 1]);
        }
        lemma_sort_pairs_sorted(tail);
        assert forall|i: int| 0 <= i < tail.len() implies !lex_lt((#[trigger] tail[i]).0, key)
            && tail[i].0 != key by {
            assert(tail[i] == entries[i + 1]);
            assert(lex_lt(entries[0].0, entries[i + 1].0));
            lemma_lex_lt_total(key, tail[i].0);
            lemma_lex_lt_irreflexive(key);
        }
        lemma_rank_is(tail, key, 0);
        assert(insert_entry(tail, key, entries[0].1) =~= entries);
    } else {
        assert(entries =~= Seq::empty());
    }
}

/// Decoding the text of a well-formed value gives the value back and takes
/// exactly the text, whatever follows it.
pub proof fn lemma_parse_encoded(t: Term, rest: Seq<u8>)
    requires
        t.wf(),
    ensures
        parse_value(encode_term(t) + rest) == Ok::<_, BencodeError>((t, encode_term(t).len())),
    decreases t, 0int,
{
    let text = encode_term(t);
    let s = text + rest;
    lemma_encode_term_head(t);
    assert(s[0] == text[0]);
    match t {
        Term::Int(n) => {
            lemma_parse_int_text(n, rest);
        },
        Term::Bytes(bytes) => {
            lemma_parse_string_text(bytes, rest);
        },
        Term::List(items) => {
            let tail = seq![BENCODE_END] + rest;
            assert(s.skip(1) =~= encode_terms(items) + tail);
            lemma_parse_encoded_items(items, rest);
        },
        Term::Dict(entries) => {
            let tail = seq![BENCODE_END] + rest;
            assert(s.skip(1) =~= encode_pairs(entries) + tail);
            lemma_parse_encoded_pairs(entries, rest);
            lemma_sort_pairs_sorted(entries);
        },
    }
}

/// Decoding the texts of well-formed values, closed by `e`, gives the values
/// back.
pub proof fn lemma_parse_encoded_items(items: Seq<Term>, rest: Seq<u8>)
    requires
        forall|i: int| 0 <= i < items.len() ==> (#[trigger] items[i]).wf(),
    ensures
        parse_items(encode_terms(items) + (seq![BENCODE_END] + rest)) == Ok::<_, BencodeError>(
            (items, encode_terms(items).len() + 1),
        ),
    decreases items, 1int,
{
    let tail = seq![BENCODE_END] + rest;
    let s = encode_terms(items) + tail;
    if items.len() == 0 {
        assert(s[0] == BENCODE_END);
        assert(items =~= Seq::empty());
    } else {
        let first = encode_term(items[0]);
        let others = encode_terms(items.skip(1));
        lemma_encode_term_head(items[0]);
        assert(s[0] == first[0]);
        assert(s =~= first + (others + tail));
        lemma_parse_encoded(items[0], others + tail);
        assert(s.skip(first.len() as int) =~= others + tail);
        assert forall|i: int| 0 <= i < items.skip(1).len() implies (#[trigger] items.skip(
            1,
        )[i]).wf() by {
            assert(items.skip(1)[i] == items[i + 1]);
        }
        lemma_parse_encoded_items(items.skip(1), rest);
        assert(seq![items[0]] + items.skip(1) =~= items);
    }
}

/// Decoding the texts of well-formed entries, closed by `e`, gives the
/// entries back in their order.
pub proof fn lemma_parse_encoded_pairs(entries: Seq<(Seq<u8>, Term)>, rest: Seq<u8>)
    requires
        forall|i: int|
            0 <= i < entries.len() ==> (#[trigger] entries[i]).0.len() <= u64::MAX
                && entries[i].1.wf(),
    ensures
        parse_pairs(encode_pairs(entries) + (seq![BENCODE_END] + rest)) == Ok::<_, BencodeError>(
            (entries, encode_pairs(entries).len() + 1),
        ),
    decreases entries, 1int,
{
    let tail = seq![BENCODE_END] + rest;
    let s = encode_pairs(entries) + tail;
    if entries.len() == 0 {
        assert(s[0] == BENCODE_END);
        assert(entries =~= Seq::empty());
    } else {
        let key = encode_string(entries[0].0);
        let value = encode_term(entries[0].1);
        let others = encode_pairs(entries.skip(1));
        lemma_encode_term_head(Term::Bytes(entries[0].0));
        lemma_encode_term_head(entries[0].1);
        assert(s[0] == key[0]);
        assert(s =~= key + (value + (others + tail)));
        lemma_parse_string_text(entries[0].0, value + (others + tail));
        assert(s.skip(key.len() as int) =~= value + (others + tail));
        lemma_parse_encoded(entries[0].1, others + tail);
        assert(s.skip((key.len() + value.len()) as int) =~= others + tail);
        assert forall|i: int| 0 <= i < entries.skip(1).len() implies (#[trigger] entries.skip(
            1,
        )[i]).0.len() <= u64::MAX && entries.skip(1)[i].1.wf() by {
            assert(entries.skip(1)[i] == entries[i + 1]);
        }
        lemma_parse_encoded_pairs(entries.skip(1), rest);
        assert(seq![entries[0]] + entries.skip(1) =~= entries);
    }
}

/// A byte string never reaches past the end of the input: a length that
/// exceeds what is left after the colon is refused, and what is accepted lies
/// within the input.
pub proof fn law_string_within_input(s: Seq<u8>)
    ensures
        s.len() > 0 && is_digit(s[0]) && digits_end(s, 0) < s.len() && decimal_value(
            s.subrange(0, digits_end(s, 0)),
        ) > s.len() - digits_end(s, 0) - 1 ==> parse_string(s) is Err,
        parse_string(s) matches Ok((bytes, n)) ==> bytes.len() < n <= s.len() && bytes
            == s.subrange(n - bytes.len(), n as int) && bytes.len() <= u64::MAX,
{
    if s.len() > 0 {
        super::grammar::lemma_digits_end(s, 0);
    }
}

/// Two of the pairs share a key.
pub open spec fn has_duplicate(pairs: Seq<(Seq<u8>, Term)>) -> bool {
    exists|i: int, j: int| 0 <= i < j < pairs.len() && #[trigger] pairs[i].0 == #[trigger] pairs[j].0
}

/// A sequence with one more item holds that item and what it held before.
proof fn lemma_insert_contains(
    entries: Seq<(Seq<u8>, Term)>,
    p: int,
    new: (Seq<u8>, Term),
    e: (Seq<u8>, Term),
)
    requires
        0 <= p <= entries.len(),
    ensures
        entries.insert(p, new).contains(e) <==> (entries.contains(e) || e == new),
{
    let out = entries.insert(p, new);
    if out.contains(e) {
        let i = choose|i: int| 0 <= i < out.len() && out[i] == e;
        if i < p {
            assert(entries[i] == e);
        } else if i > p {
            assert(entries[i - 1] == e);
        }
    }
    if entries.contains(e) {
        let i = choose|i: int| 0 <= i < entries.len() && entries[i] == e;
        if i < p {
            assert(out[i] == e);
        } else {
            assert(out[i + 1] == e);
        }
    }
    if e == new {
        assert(out[p] == e);
    }
}

/// Sorting pairs fails exactly where two of them share a key. Where it
/// succeeds, the entries are the pairs, each once, with keys strictly
/// increasing.
pub proof fn law_sort_pairs(pairs: Seq<(Seq<u8>, Term)>)
    ensures
        match sort_pairs(pairs) {
            Ok(entries) => {
                &&& !has_duplicate(pairs)
                &&& keys_sorted(entries)
                &&& entries.len() == pairs.len()
                &&& forall|e: (Seq<u8>, Term)| #[trigger] entries.contains(e) <==> pairs.contains(e)
            },
            Err(e) => e == BencodeError::DuplicateKey && has_duplicate(pairs),
        },
    decreases pairs.len(),
{
    if pairs.len() > 0 {
        let tail = pairs.skip(1);
        let first = pairs[0];
        law_sort_pairs(tail);
        match sort_pairs(tail) {
            Err(_) => {
                let (i, j) = choose|i: int, j: int|
                    0 <= i < j < tail.len() && #[trigger] tail[i].0 == #[trigger] tail[j].0;
                assert(pairs[i + 1].0 == pairs[j + 1].0);
            },
            Ok(sorted) => {
                if has_key(sorted, first.0) {
                    let k = choose|k: int| 0 <= k < sorted.len() && (#[trigger] sorted[k]).0 == first.0;
                    assert(sorted.contains(sorted[k]));
                    assert(tail.contains(sorted[k]));
                    let j = choose|j: int| 0 <= j < tail.len() && tail[j] == sorted[k];
                    assert(pairs[0].0 == pairs[j + 1].0);
                } else {
                    let entries = insert_entry(sorted, first.0, first.1);
                    super::model::lemma_insert_entry_sorted(sorted, first.0, first.1);
                    super::model::lemma_rank_parts(sorted, first.0);
                    assert forall|e: (Seq<u8>, Term)| #[trigger]
                        entries.contains(e) <==> pairs.contains(e) by {
                        lemma_insert_contains(sorted, rank(sorted, first.0) as int, first, e);
                        assert(sorted.contains(e) <==> tail.contains(e));
                        if tail.contains(e) {
                            let j = choose|j: int| 0 <= j < tail.len() && tail[j] == e;
                            assert(pairs[j + 1] == e);
                        }
                        if pairs.contains(e) {
                            let j = choose|j: int| 0 <= j < pairs.len() && pairs[j] == e;
                            if j > 0 {
                                assert(tail[j - 1] == e);
                            }
                        }
                        if e == first {
                            assert(pairs[0] == e);
                        }
                    }
                    if has_duplicate(pairs) {
                        let (i, j) = choose|i: int, j: int|
                            0 <= i < j < pairs.len() && #[trigger] pairs[i].0
                                == #[trigger] pairs[j].0;
                        if i > 0 {
                            assert(tail[i - 1].0 == tail[j - 1].0);
                        } else {
                            assert(tail.contains(tail[j - 1]));
                            assert(sorted.contains(tail[j - 1]));
                            let k = choose|k: int| 0 <= k < sorted.len() && sorted[k] == tail[j - 1];
                            assert(sorted[k].0 == first.0);
                        }
                    }
                }
            },
        }
    } else {
        assert(sort_pairs(pairs) == Ok::<_, BencodeError>(Seq::<(Seq<u8>, Term)>::empty()));
    }
}

/// What the grammar accepts is well-formed and lies within the input: a
/// value takes at least one byte and no more than there are.
pub proof fn law_parsed_is_well_formed(s: Seq<u8>)
    ensures
        parse_value(s) matches Ok((t, n)) ==> t.wf() && 0 < n <= s.len(),
    decreases s.len(), 2int,
{
    if s.len() > 0 {
        if is_digit(s[0]) {
            law_string_within_input(s);
        } else if s[0] == BENCODE_INT_PREFIX {
            let start: int = if s.len() > 1 && s[1] == BENCODE_MINUS { 2 } else { 1 };
            if start <= s.len() {
                super::grammar::lemma_digits_end(s, start);
            }
        } else if s[0] == BENCODE_LIST_PREFIX {
            lemma_parsed_items(s.skip(1));
        } else if s[0] == BENCODE_DICT_PREFIX {
            lemma_parsed_pairs(s.skip(1));
            match parse_pairs(s.skip(1)) {
                Ok((pairs, n)) => {
                    law_sort_pairs(pairs);
                    match sort_pairs(pairs) {
                        Ok(entries) => {
                            assert forall|i: int| 0 <= i < entries.len() implies (
                            #[trigger] entries[i]).0.len() <= u64::MAX && entries[i].1.wf() by {
                                assert(entries.contains(entries[i]));
                                assert(pairs.contains(entries[i]));
                            }
                        },
                        Err(_) => {},
                    }
                },
                Err(_) => {},
            }
        }
    }
}

proof fn lemma_parsed_items(s: Seq<u8>)
    ensures
        parse_items(s) matches Ok((items, n)) ==> 0 < n <= s.len() && forall|i: int|
            0 <= i < items.len() ==> (#[trigger] items[i]).wf(),
    decreases s.len(), 3int,
{
    if s.len() > 0 && s[0] != BENCODE_END {
        law_parsed_is_well_formed(s);
        match parse_value(s) {
            Ok((v, n)) => {
                lemma_parsed_items(s.skip(n as int));
            },
            Err(_) => {},
        }
    }
}

proof fn lemma_parsed_pairs(s: Seq<u8>)
    ensures
        parse_pairs(s) matches Ok((pairs, n)) ==> 0 < n <= s.len() && forall|i: int|
            0 <= i < pairs.len() ==> (#[trigger] pairs[i]).0.len() <= u64::MAX && pairs[i].1.wf(),
    decreases s.len(), 3int,
{
    if s.len() > 0 && s[0] != BENCODE_END && is_digit(s[0]) {
        law_string_within_input(s);
        match parse_string(s) {
            Ok((key, kn)) => {
                law_parsed_is_well_formed(s.skip(kn as int));
                match parse_value(s.skip(kn as int)) {
                    Ok((v, vn)) => {
                        lemma_parsed_pairs(s.skip((kn + vn) as int));
                    },
                    Err(_) => {},
                }
            },
            Err(_) => {},
        }
    }
}

/// `text` is what the encoder writes for some well-formed value.
pub open spec fn is_canonical(text: Seq<u8>) -> bool {
    exists|t: Term| t.wf() && encode_term(t) == text
}

/// Decoding what the encoder wrote for a well-formed value gives that value
/// and takes all of the text.
pub proof fn law_decode_encode(t: Term)
    requires
        t.wf(),
    ensures
        parse_value(encode_term(t)) == Ok::<_, BencodeError>((t, encode_term(t).len())),
{
    lemma_parse_encoded(t, Seq::empty());
    assert(encode_term(t) + Seq::<u8>::empty() =~= encode_term(t));
}

/// A canonical text decodes, to the end, and encoding what it decodes to
/// gives the text again.
pub proof fn law_encode_decode(text: Seq<u8>)
    requires
        is_canonical(text),
    ensures
        parse_value(text) matches Ok((t, n)) && n == text.len() && encode_term(t) == text,
{
    let t = choose|t: Term| t.wf() && encode_term(t) == text;
    law_decode_encode(t);
}

/// A byte string is read the same from any input that starts with the bytes
/// it takes.
proof fn lemma_parse_string_prefix(s: Seq<u8>, other: Seq<u8>)
    requires
        parse_string(s) is Ok,
        parse_string(s)->Ok_0.1 <= other.len(),
        other.take(parse_string(s)->Ok_0.1 as int) == s.take(parse_string(s)->Ok_0.1 as int),
    ensures
        parse_string(other) == parse_string(s),
{
    let n = parse_string(s)->Ok_0.1 as int;
    law_string_within_input(s);
    super::grammar::lemma_digits_end(s, 0);
    let end = digits_end(s, 0);
    assert forall|k: int| 0 <= k < n implies other[k] == s[k] by {
        assert(other.take(n)[k] == s.take(n)[k]);
    }
    lemma_digits_end_is(other, 0, end);
    assert(other.subrange(0, end) =~= s.subrange(0, end));
    let count = decimal_value(s.subrange(0, end));
    assert(other.subrange(end + 1, end + 1 + count) =~= s.subrange(end + 1, end + 1 + count));
}

/// An integer is read the same from any input that starts with the bytes it
/// takes.
proof fn lemma_parse_int_prefix(s: Seq<u8>, other: Seq<u8>)
    requires
        parse_int(s) is Ok,
        parse_int(s)->Ok_0.1 <= other.len(),
        other.take(parse_int(s)->Ok_0.1 as int) == s.take(parse_int(s)->Ok_0.1 as int),
    ensures
        parse_int(other) == parse_int(s),
{
    let n = parse_int(s)->Ok_0.1 as int;
    let start: int = if s.len() > 1 && s[1] == BENCODE_MINUS { 2 } else { 1 };
    super::grammar::lemma_digits_end(s, start);
    let end = digits_end(s, start);
    assert forall|k: int| 0 <= k < n implies other[k] == s[k] by {
        assert(other.take(n)[k] == s.take(n)[k]);
    }
    lemma_digits_end_is(other, start, end);
    assert(other.subrange(start, end) =~= s.subrange(start, end));
}

/// A value is read the same from any input that starts with the bytes it
/// takes.
pub proof fn lemma_parse_value_prefix(s: Seq<u8>, other: Seq<u8>)
    requires
        parse_value(s) is Ok,
        parse_value(s)->Ok_0.1 <= other.len(),
        other.take(parse_value(s)->Ok_0.1 as int) == s.take(parse_value(s)->Ok_0.1 as int),
    ensures
        parse_value(other) == parse_value(s),
    decreases s.len(), 2int,
{
    let n = parse_value(s)->Ok_0.1 as int;
    law_parsed_is_well_formed(s);
    assert forall|k: int| 0 <= k < n implies other[k] == s[k] by {
        assert(other.take(n)[k] == s.take(n)[k]);
    }
    if is_digit(s[0]) {
        lemma_parse_string_prefix(s, other);
    } else if s[0] == BENCODE_INT_PREFIX {
        lemma_parse_int_prefix(s, other);
    } else if s[0] == BENCODE_LIST_PREFIX {
        assert(other.skip(1).take(n - 1) =~= s.skip(1).take(n - 1));
        lemma_parse_items_prefix(s.skip(1), other.skip(1));
    } else if s[0] == BENCODE_DICT_PREFIX {
        assert(other.skip(1).take(n - 1) =~= s.skip(1).take(n - 1));
        lemma_parse_pairs_prefix(s.skip(1), other.skip(1));
    }
}

proof fn lemma_parse_items_prefix(s: Seq<u8>, other: Seq<u8>)
    requires
        parse_items(s) is Ok,
        parse_items(s)->Ok_0.1 <= other.len(),
        other.take(parse_items(s)->Ok_0.1 as int) == s.take(parse_items(s)->Ok_0.1 as int),
    ensures
        parse_items(other) == parse_items(s),
    decreases s.len(), 3int,
{
    let n = parse_items(s)->Ok_0.1 as int;
    lemma_parsed_items(s);
    assert forall|k: int| 0 <= k < n implies other[k] == s[k] by {
        assert(other.take(n)[k] == s.take(n)[k]);
    }
    if s[0] != BENCODE_END {
        law_parsed_is_well_formed(s);
        let n1 = parse_value(s)->Ok_0.1 as int;
        lemma_parsed_items(s.skip(n1));
        assert(other.take(n1) =~= s.take(n1));
        lemma_parse_value_prefix(s, other);
        assert(other.skip(n1).take(n - n1) =~= s.skip(n1).take(n - n1));
        lemma_parse_items_prefix(s.skip(n1), other.skip(n1));
    }
}

proof fn lemma_parse_pairs_prefix(s: Seq<u8>, other: Seq<u8>)
    requires
        parse_pairs(s) is Ok,
        parse_pairs(s)->Ok_0.1 <= other.len(),
        other.take(parse_pairs(s)->Ok_0.1 as int) == s.take(parse_pairs(s)->Ok_0.1 as int),
    ensures
        parse_pairs(other) == parse_pairs(s),
    decreases s.len(), 3int,
{
    let n = parse_pairs(s)->Ok_0.1 as int;
    lemma_parsed_pairs(s);
    assert forall|k: int| 0 <= k < n implies other[k] == s[k] by {
        assert(other.take(n)[k] == s.take(n)[k]);
    }
    if s[0] != BENCODE_END {
        law_string_within_input(s);
        let kn = parse_string(s)->Ok_0.1 as int;
        law_parsed_is_well_formed(s.skip(kn));
        let vn = parse_value(s.skip(kn))->Ok_0.1 as int;
        lemma_parsed_pairs(s.skip(kn + vn));
        assert(other.take(kn) =~= s.take(kn));
        lemma_parse_string_prefix(s, other);
        assert(other.skip(kn).take(vn) =~= s.skip(kn).take(vn));
        lemma_parse_value_prefix(s.skip(kn), other.skip(kn));
        assert(other.skip(kn + vn).take(n - kn - vn) =~= s.skip(kn + vn).take(n - kn - vn));
        lemma_parse_pairs_prefix(s.skip(kn + vn), other.skip(kn + vn));
    }
}

/// Among pairs without a key twice, the pair with a key is the one that
/// `lookup` finds.
proof fn lemma_lookup_unique(pairs: Seq<(Seq<u8>, Term)>, j: int)
    requires
        !has_duplicate(pairs),
        0 <= j < pairs.len(),
    ensures
        lookup(pairs, pairs[j].0) == Some(pairs[j].1),
    decreases pairs.len(),
{
    if pairs[0].0 == pairs[j].0 {
        if j > 0 {
            assert(pairs[0].0 == pairs[j].0);
        }
    } else {
        let tail = pairs.skip(1);
        if has_duplicate(tail) {
            let (a, b) = choose|a: int, b: int|
                0 <= a < b < tail.len() && #[trigger] tail[a].0 == #[trigger] tail[b].0;
            assert(pairs[a + 1].0 == pairs[b + 1].0);
        }
        assert(tail[j - 1] == pairs[j]);
        lemma_lookup_unique(tail, j - 1);
    }
}

/// Sorting the pairs leaves what each key is bound to.
pub proof fn lemma_lookup_sorted(pairs: Seq<(Seq<u8>, Term)>, key: Seq<u8>)
    requires
        sort_pairs(pairs) is Ok,
    ensures
        lookup(sort_pairs(pairs)->Ok_0, key) == lookup(pairs, key),
{
    let entries = sort_pairs(pairs)->Ok_0;
    law_sort_pairs(pairs);
    super::model::lemma_lookup(pairs, key);
    super::model::lemma_lookup(entries, key);
    if has_key(pairs, key) {
        let j = choose|j: int| 0 <= j < pairs.len() && (#[trigger] pairs[j]).0 == key;
        lemma_lookup_unique(pairs, j);
        assert(pairs.contains(pairs[j]));
        assert(entries.contains(pairs[j]));
        let i = choose|i: int| 0 <= i < entries.len() && entries[i] == pairs[j];
        assert(entries[i].0 == key);
    } else if has_key(entries, key) {
        let i = choose|i: int| 0 <= i < entries.len() && (#[trigger] entries[i]).0 == key;
        assert(entries.contains(entries[i]));
        assert(pairs.contains(entries[i]));
        let j = choose|j: int| 0 <= j < pairs.len() && pairs[j] == entries[i];
        assert(pairs[j].0 == key);
    }
}

/// The span found for a key among pairs holds the text of the value that the
/// first pair with that key has.
proof fn lemma_pairs_span(s: Seq<u8>, key: Seq<u8>)
    requires
        parse_pairs(s) is Ok,
    ensures
        match super::grammar::pairs_span(s, key) {
            Some((a, b)) => a < b <= s.len() && lookup(parse_pairs(s)->Ok_0.0, key) is Some
                && parse_value(s.skip(a as int)) == Ok::<_, BencodeError>(
                (lookup(parse_pairs(s)->Ok_0.0, key)->Some_0, (b - a) as nat),
            ),
            None => lookup(parse_pairs(s)->Ok_0.0, key) is None,
        },
    decreases s.len(),
{
    let pairs = parse_pairs(s)->Ok_0.0;
    lemma_parsed_pairs(s);
    if s[0] != BENCODE_END {
        law_string_within_input(s);
        let k = parse_string(s)->Ok_0.0;
        let kn = parse_string(s)->Ok_0.1 as int;
        law_parsed_is_well_formed(s.skip(kn));
        let v = parse_value(s.skip(kn))->Ok_0.0;
        let vn = parse_value(s.skip(kn))->Ok_0.1 as int;
        let rest = s.skip(kn + vn);
        lemma_parsed_pairs(rest);
        let others = parse_pairs(rest)->Ok_0.0;
        assert(pairs.skip(1) =~= others);
        assert(pairs[0] == (k, v));
        if k != key {
            lemma_pairs_span(rest, key);
            match super::grammar::pairs_span(rest, key) {
                Some((a, b)) => {
                    assert(rest.skip(a as int) =~= s.skip(kn + vn + a));
                },
                None => {},
            }
        }
    } else {
        assert(pairs =~= Seq::empty());
    }
}

/// The span that `value_span` finds for a key in a dictionary's text holds
/// the text of the value that the decoded dictionary binds to the key, and
/// nothing else; it finds none exactly where the dictionary lacks the key.
pub proof fn law_value_span(s: Seq<u8>, key: Seq<u8>)
    requires
        parse_value(s) is Ok,
        parse_value(s)->Ok_0.0 is Dict,
    ensures
        match super::grammar::value_span(s, key) {
            Some((a, b)) => a < b <= s.len() && lookup(parse_value(s)->Ok_0.0->Dict_0, key) is Some
                && parse_value(s.subrange(a as int, b as int)) == Ok::<_, BencodeError>(
                (lookup(parse_value(s)->Ok_0.0->Dict_0, key)->Some_0, (b - a) as nat),
            ),
            None => lookup(parse_value(s)->Ok_0.0->Dict_0, key) is None,
        },
{
    let tail = s.skip(1);
    assert(s[0] == BENCODE_DICT_PREFIX);
    let pairs = parse_pairs(tail)->Ok_0.0;
    lemma_pairs_span(tail, key);
    lemma_lookup_sorted(pairs, key);
    match super::grammar::pairs_span(tail, key) {
        Some((a, b)) => {
            let from = s.skip((a + 1) as int);
            assert(tail.skip(a as int) =~= from);
            let part = s.subrange((a + 1) as int, (b + 1) as int);
            assert(part.take(b - a) =~= from.take(b - a));
            lemma_parse_value_prefix(from, part);
        },
        None => {},
    }
}

/// A text is canonical exactly where it decodes, to its end, to a value whose
/// text it is.
pub proof fn law_canonical(text: Seq<u8>)
    ensures
        is_canonical(text) <==> (parse_value(text) matches Ok((t, n)) && n == text.len()
            && encode_term(t) == text),
{
    if is_canonical(text) {
        law_encode_decode(text);
    }
    match parse_value(text) {
        Ok((t, n)) => {
            law_parsed_is_well_formed(text);
        },
        Err(_) => {},
    }
}

/// Tells whether `input` is canonical bencode: the text that the encoder
/// writes for some value, with nothing after it.
pub fn is_canonical_text(input: &[u8]) -> (canonical: bool)
    ensures
        canonical == is_canonical(input@),
{
    proof {
        law_canonical(input@);
    }
    match super::decode::decode(input) {
        Err(_) => false,
        Ok(parsed) => {
            if parsed.length != input.len() {
                return false;
            }
            let again = super::encode::encode(&parsed.value);
            match super::model::key_order(again.as_slice(), input) {
                super::model::KeyOrder::Same => true,
                _ => false,
            }
        },
    }
}

} // verus!
