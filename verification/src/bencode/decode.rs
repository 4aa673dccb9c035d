//! The decoder.

use vstd::prelude::*;
use vstd::slice::slice_subrange;
use vstd::slice::slice_to_vec;
use super::grammar::{
    BENCODE_DICT_PREFIX, BENCODE_END, BENCODE_INT_PREFIX, BENCODE_LIST_PREFIX, BENCODE_MINUS,
    BENCODE_STRING_SPLIT_CHAR, BENCODE_ZERO,
};
use super::grammar::{
    decimal_value, digits_end, is_digit, lemma_decimal_value_grows, lemma_digits_end, pairs_span,
    parse_bytes, parse_dict, parse_int, parse_items, parse_list, parse_pairs, parse_string,
    parse_value, sort_pairs, value_span,
};
use super::model::{lemma_view_entries, lemma_view_items, view_entries, view_items};
use super::model::{BencodeError, Dict, Term, Value};

verus! {

/// A decoded value and the number of input bytes it took.
#[derive(Debug, PartialEq, Eq)]
pub struct ParsedValue {
    pub length: usize,
    pub value: Value,
}

/// What a decoder result says, in the terms of the grammar.
pub open spec fn parsed(r: Result<ParsedValue, BencodeError>) -> Result<(Term, nat), BencodeError> {
    match r {
        Ok(p) => Ok((p.value@, p.length as nat)),
        Err(e) => Err(e),
    }
}

fn is_digit_byte(b: u8) -> (r: bool)
    ensures
        r == is_digit(b),
{
    BENCODE_ZERO <= b && b <= BENCODE_ZERO + 9
}

fn scan_digits(input: &[u8], start: usize) -> (end: usize)
    requires
        start <= input.len(),
    ensures
        end == digits_end(input@, start as int),
        start <= end <= input.len(),
{
    let mut i: usize = start;
    while i < input.len() && is_digit_byte(input[i])
        invariant
            start <= i <= input.len(),
            digits_end(input@, start as int) == digits_end(input@, i as int),
        decreases input.len() - i,
    {
        i += 1;
    }
    proof {
        lemma_digits_end(input@, start as int);
    }
    i
}

/// The number written by the digits in `input[start..end]`, or `None` where it
/// does not fit in 64 bits.
fn decimal_u64(input: &[u8], start: usize, end: usize) -> (r: Option<u64>)
    requires
        start <= end <= input.len(),
        forall|k: int| start <= k < end ==> is_digit(#[trigger] input@[k]),
    ensures
        match r {
            Some(n) => n == decimal_value(input@.subrange(start as int, end as int)),
            None => decimal_value(input@.subrange(start as int, end as int)) > u64::MAX,
        },
{
    let mut acc: u64 = 0;
    let mut i: usize = start;
    while i < end
        invariant
            start <= i <= end <= input.len(),
            forall|k: int| start <= k < end ==> is_digit(#[trigger] input@[k]),
            acc == decimal_value(input@.subrange(start as int, i as int)),
        decreases end - i,
    {
        let d: u64 = (input[i] - BENCODE_ZERO) as u64;
        proof {
            assert(is_digit(input@[i as int]));
            assert(input@.subrange(start as int, i + 1).drop_last() == input@.subrange(
                start as int,
                i as int,
            ));
            lemma_decimal_value_grows(input@, start as int, i + 1, end as int);
        }
        if acc > (u64::MAX - d) / 10 {
            return None;
        }
        acc = acc * 10 + d;
        i += 1;
    }
    Some(acc)
}

/// Decodes the integer at the front of `input`.
pub fn bdecode_num(input: &[u8]) -> (res: Result<ParsedValue, BencodeError>)
    ensures
        parsed(res) == parse_int(input@),
        res matches Ok(p) ==> p.value@.wf() && 0 < p.length <= input.len(),
{
    if input.len() == 0 {
        return Err(BencodeError::TruncatedInput);
    }
    if input[0] != BENCODE_INT_PREFIX {
        return Err(BencodeError::InvalidLeadingByte);
    }
    let negative = input.len() > 1 && input[1] == BENCODE_MINUS;
    let start: usize = if negative { 2 } else { 1 };
    let end = scan_digits(input, start);
    proof {
        lemma_digits_end(input@, start as int);
    }
    if end >= input.len() {
        return Err(BencodeError::TruncatedInput);
    }
    if input[end] != BENCODE_END {
        return Err(BencodeError::BadInteger);
    }
    if end == start {
        return Err(BencodeError::BadInteger);
    }
    if input[start] == BENCODE_ZERO && end - start > 1 {
        return Err(BencodeError::BadInteger);
    }
    if negative && input[start] == BENCODE_ZERO {
        return Err(BencodeError::NegativeZero);
    }
    let n: i64 = match decimal_u64(input, start, end) {
        None => { return Err(BencodeError::BadInteger); },
        Some(m) => {
            if negative {
                if m > 0x8000_0000_0000_0000 {
                    return Err(BencodeError::BadInteger);
                } else if m == 0x8000_0000_0000_0000 {
                    i64::MIN
                } else {
                    -(m as i64)
                }
            } else {
                if m > 0x7fff_ffff_ffff_ffff {
                    return Err(BencodeError::BadInteger);
                } else {
                    m as i64
                }
            }
        },
    };
    Ok(ParsedValue { length: end + 1, value: Value::Int(n) })
}

/// Decodes the byte string at the front of `input`.
fn decode_string(input: &[u8]) -> (res: Result<(Vec<u8>, usize), BencodeError>)
    ensures
        match res {
            Ok((bytes, n)) => parse_string(input@) == Ok::<_, BencodeError>((bytes@, n as nat))
                && 0 < n <= input.len(),
            Err(e) => parse_string(input@) == Err::<(Seq<u8>, nat), _>(e),
        },
{
    if input.len() == 0 {
        return Err(BencodeError::TruncatedInput);
    }
    if !is_digit_byte(input[0]) {
        return Err(BencodeError::InvalidLeadingByte);
    }
    let end = scan_digits(input, 0);
    proof {
        lemma_digits_end(input@, 0);
    }
    if end >= input.len() {
        return Err(BencodeError::TruncatedInput);
    }
    if input[end] != BENCODE_STRING_SPLIT_CHAR {
        return Err(BencodeError::BadInteger);
    }
    let n: u64 = match decimal_u64(input, 0, end) {
        None => { return Err(BencodeError::LengthOverflow); },
        Some(n) => n,
    };
    let room: usize = input.len() - end - 1;
    if n > room as u64 {
        return Err(BencodeError::TruncatedInput);
    }
    let from: usize = end + 1;
    let to: usize = from + n as usize;
    let bytes = slice_to_vec(slice_subrange(input, from, to));
    Ok((bytes, to))
}

/// Decodes the byte string at the front of `input`.
pub fn bdecode_string(input: &[u8]) -> (res: Result<ParsedValue, BencodeError>)
    ensures
        parsed(res) == parse_bytes(input@),
        res matches Ok(p) ==> p.value@.wf() && 0 < p.length <= input.len(),
{
    match decode_string(input) {
        Ok((bytes, n)) => {
            assert(bytes@.len() == bytes.len());
            Ok(ParsedValue { length: n, value: Value::Bytes(bytes) })
        },
        Err(e) => Err(e),
    }
}

/// `front`, already read in `taken` bytes, before what is read after it.
spec fn after_items(front: Seq<Term>, taken: nat, r: Result<(Seq<Term>, nat), BencodeError>) -> Result<
    (Seq<Term>, nat),
    BencodeError,
> {
    match r {
        Ok((rest, m)) => Ok((front + rest, taken + m)),
        Err(e) => Err(e),
    }
}

/// `front`, already read in `taken` bytes, before what is read after it.
spec fn after_pairs(
    front: Seq<(Seq<u8>, Term)>,
    taken: nat,
    r: Result<(Seq<(Seq<u8>, Term)>, nat), BencodeError>,
) -> Result<(Seq<(Seq<u8>, Term)>, nat), BencodeError> {
    match r {
        Ok((rest, m)) => Ok((front + rest, taken + m)),
        Err(e) => Err(e),
    }
}

/// The kind of value that a first byte announces.
#[derive(Debug, Clone, Copy, PartialEq, Eq, Structural)]
pub enum BencodeType {
    String,
    Number,
    List,
    Dictionary,
    Invalid,
}

impl BencodeType {
    /// A digit announces a byte string, `i` an integer, `l` a list, `d` a
    /// dictionary; any other byte announces nothing.
    pub fn new(input: u8) -> (kind: BencodeType)
        ensures
            kind == if is_digit(input) {
                BencodeType::String
            } else if input == BENCODE_INT_PREFIX {
                BencodeType::Number
            } else if input == BENCODE_LIST_PREFIX {
                BencodeType::List
            } else if input == BENCODE_DICT_PREFIX {
                BencodeType::Dictionary
            } else {
                BencodeType::Invalid
            },
    {
        if is_digit_byte(input) {
            BencodeType::String
        } else if input == BENCODE_INT_PREFIX {
            BencodeType::Number
        } else if input == BENCODE_LIST_PREFIX {
            BencodeType::List
        } else if input == BENCODE_DICT_PREFIX {
            BencodeType::Dictionary
        } else {
            BencodeType::Invalid
        }
    }
}

/// Decodes the value at the front of `input`, whatever its kind. Bytes after
/// the value are left alone.
pub fn decode(input: &[u8]) -> (res: Result<ParsedValue, BencodeError>)
    ensures
        parsed(res) == parse_value(input@),
        res matches Ok(p) ==> p.value@.wf() && 0 < p.length <= input.len(),
    decreases input.len(), 2int,
{
    if input.len() == 0 {
        return Err(BencodeError::TruncatedInput);
    }
    match BencodeType::new(input[0]) {
        BencodeType::String => bdecode_string(input),
        BencodeType::Number => bdecode_num(input),
        BencodeType::List => bdecode_list(input),
        BencodeType::Dictionary => bdecode_dict(input),
        BencodeType::Invalid => Err(BencodeError::InvalidLeadingByte),
    }
}

/// Decodes the list at the front of `input`.
pub fn bdecode_list(input: &[u8]) -> (res: Result<ParsedValue, BencodeError>)
    ensures
        parsed(res) == parse_list(input@),
        res matches Ok(p) ==> p.value@.wf() && 0 < p.length <= input.len(),
    decreases input.len(), 1int,
{
    if input.len() == 0 {
        return Err(BencodeError::TruncatedInput);
    }
    if input[0] != BENCODE_LIST_PREFIX {
        return Err(BencodeError::InvalidLeadingByte);
    }
    let mut items: Vec<Value> = Vec::new();
    let mut pos: usize = 1;
    proof {
        assert(view_items(items@) + Seq::<Term>::empty() =~= Seq::<Term>::empty()) by {
            lemma_view_items(items@);
        }
        let r = parse_items(input@.skip(1));
        match r {
            Ok((rest, m)) => { assert(Seq::<Term>::empty() + rest =~= rest); },
            Err(_) => {},
        }
    }
    loop
        invariant
            1 <= pos <= input.len(),
            input@[0] == BENCODE_LIST_PREFIX,
            parse_items(input@.skip(1)) == after_items(
                view_items(items@),
                (pos - 1) as nat,
                parse_items(input@.skip(pos as int)),
            ),
            forall|i: int| 0 <= i < items@.len() ==> (#[trigger] items@[i])@.wf(),
        decreases input.len() - pos,
    {
        if pos >= input.len() {
            return Err(BencodeError::TruncatedInput);
        }
        if input[pos] == BENCODE_END {
            proof {
                lemma_view_items(items@);
                assert(view_items(items@) + Seq::<Term>::empty() =~= view_items(items@));
            }
            return Ok(ParsedValue { length: pos + 1, value: Value::List(items) });
        }
        let rest = slice_subrange(input, pos, input.len());
        assert(rest@ == input@.skip(pos as int));
        match decode(rest) {
            Err(e) => { return Err(e); },
            Ok(p) => {
                proof {
                    let n = p.length as int;
                    assert(input@.skip(pos as int).skip(n) =~= input@.skip(pos + n));
                    let before = view_items(items@);
                    let after = view_items(items@.push(p.value));
                    lemma_view_items(items@);
                    lemma_view_items(items@.push(p.value));
                    assert(after =~= before.push(p.value@));
                    match parse_items(input@.skip(pos + n)) {
                        Ok((tail, m)) => {
                            assert(before + (seq![p.value@] + tail) =~= after + tail);
                        },
                        Err(_) => {},
                    }
                }
                items.push(p.value);
                pos += p.length;
            },
        }
    }
}

/// An error in a later part of the pairs is the error of the whole.
proof fn lemma_sort_pairs_error(pairs: Seq<(Seq<u8>, Term)>, k: int)
    requires
        0 <= k <= pairs.len(),
        sort_pairs(pairs.skip(k)) is Err,
    ensures
        sort_pairs(pairs) == sort_pairs(pairs.skip(k)),
    decreases k,
{
    if k > 0 {
        let tail = pairs.skip(k - 1);
        assert(tail.skip(1) =~= pairs.skip(k));
        lemma_sort_pairs_error(pairs, k - 1);
    } else {
        assert(pairs.skip(0) =~= pairs);
    }
}

/// Decodes the dictionary at the front of `input`.
pub fn bdecode_dict(input: &[u8]) -> (res: Result<ParsedValue, BencodeError>)
    ensures
        parsed(res) == parse_dict(input@),
        res matches Ok(p) ==> p.value@.wf() && 0 < p.length <= input.len(),
    decreases input.len(), 1int,
{
    if input.len() == 0 {
        return Err(BencodeError::TruncatedInput);
    }
    if input[0] != BENCODE_DICT_PREFIX {
        return Err(BencodeError::InvalidLeadingByte);
    }
    let mut pairs: Vec<(Vec<u8>, Value)> = Vec::new();
    let mut pos: usize = 1;
    let mut closed = false;
    proof {
        lemma_view_entries(pairs@);
        match parse_pairs(input@.skip(1)) {
            Ok((rest, m)) => { assert(view_entries(pairs@) + rest =~= rest); },
            Err(_) => {},
        }
    }
    while !closed
        invariant
            1 <= pos <= input.len(),
            input@[0] == BENCODE_DICT_PREFIX,
            !closed ==> parse_pairs(input@.skip(1)) == after_pairs(
                view_entries(pairs@),
                (pos - 1) as nat,
                parse_pairs(input@.skip(pos as int)),
            ),
            closed ==> parse_pairs(input@.skip(1)) == Ok::<_, BencodeError>(
                (view_entries(pairs@), (pos - 1) as nat),
            ),
            forall|i: int| 0 <= i < pairs@.len() ==> (#[trigger] pairs@[i]).1@.wf(),
        decreases input.len() - pos, if closed { 0int } else { 1int },
    {
        if pos >= input.len() {
            return Err(BencodeError::TruncatedInput);
        }
        if input[pos] == BENCODE_END {
            proof {
                assert(view_entries(pairs@) + Seq::<(Seq<u8>, Term)>::empty() =~= view_entries(
                    pairs@,
                ));
            }
            pos += 1;
            closed = true;
        } else if !is_digit_byte(input[pos]) {
            return Err(BencodeError::BadDictKey);
        } else {
            let rest = slice_subrange(input, pos, input.len());
            assert(rest@ == input@.skip(pos as int));
            let (key, kn) = match decode_string(rest) {
                Err(e) => { return Err(e); },
                Ok(found) => found,
            };
            let after_key = slice_subrange(input, pos + kn, input.len());
            assert(after_key@ =~= rest@.skip(kn as int));
            let p = match decode(after_key) {
                Err(e) => { return Err(e); },
                Ok(p) => p,
            };
            proof {
                let n = kn + p.length;
                assert(rest@.skip(n as int) =~= input@.skip(pos + n));
                let before = view_entries(pairs@);
                let after = view_entries(pairs@.push((key, p.value)));
                lemma_view_entries(pairs@);
                lemma_view_entries(pairs@.push((key, p.value)));
                assert(after =~= before.push((key@, p.value@)));
                match parse_pairs(input@.skip(pos + n)) {
                    Ok((tail, m)) => {
                        assert(before + (seq![(key@, p.value@)] + tail) =~= after + tail);
                    },
                    Err(_) => {},
                }
            }
            pairs.push((key, p.value));
            pos += kn + p.length;
        }
    }
    let ghost all = view_entries(pairs@);
    let mut dict = Dict::new();
    proof {
        lemma_view_entries(pairs@);
        assert(all.skip(all.len() as int) =~= Seq::<(Seq<u8>, Term)>::empty());
    }
    while pairs.len() > 0
        invariant
            dict.wf(),
            input@.len() > 0,
            input@[0] == BENCODE_DICT_PREFIX,
            parse_pairs(input@.skip(1)) == Ok::<_, BencodeError>((all, (pos - 1) as nat)),
            pairs@.len() <= all.len(),
            view_entries(pairs@) == all.take(pairs@.len() as int),
            sort_pairs(all.skip(pairs@.len() as int)) == Ok::<_, BencodeError>(dict@),
            forall|i: int| 0 <= i < pairs@.len() ==> (#[trigger] pairs@[i]).1@.wf(),
            forall|i: int|
                0 <= i < dict@.len() ==> (#[trigger] dict@[i]).0.len() <= u64::MAX
                    && dict@[i].1.wf(),
        decreases pairs.len(),
    {
        let ghost k = pairs@.len() - 1;
        let ghost before = pairs@;
        let ghost entries = dict@;
        let (key, value) = pairs.pop().unwrap();
        proof {
            lemma_view_entries(before);
            lemma_view_entries(pairs@);
            assert(view_entries(pairs@) =~= all.take(k));
            assert(all.take(k + 1)[k] == all[k]);
            assert(all[k] == (key@, value@));
            assert(all.skip(k).skip(1) =~= all.skip(k + 1));
            assert(all.skip(k)[0] == all[k]);
        }
        let added = dict.insert(key, value);
        if !added {
            proof {
                lemma_sort_pairs_error(all, k);
            }
            return Err(BencodeError::DuplicateKey);
        }
        proof {
            let r = super::model::rank(entries, key@) as int;
            super::model::lemma_rank_parts(entries, key@);
            assert(key@.len() == key.len());
            assert forall|i: int| 0 <= i < dict@.len() implies (#[trigger] dict@[i]).0.len()
                <= u64::MAX && dict@[i].1.wf() by {
                if i < r {
                    assert(dict@[i] == entries[i]);
                } else if i > r {
                    assert(dict@[i] == entries[i - 1]);
                }
            }
        }
    }
    proof {
        assert(all.skip(0) =~= all);
    }
    Ok(ParsedValue { length: pos, value: Value::Dict(dict) })
}

/// A span found after `taken` bytes, counted from where those began.
spec fn later_span(taken: nat, span: Option<(nat, nat)>) -> Option<(nat, nat)> {
    match span {
        None => None,
        Some((a, b)) => Some((taken + a, taken + b)),
    }
}

/// Finds, in the dictionary at the front of `input`, the bytes of the value
/// bound to `key`, as they were written: the places of the first of them and
/// of the byte after the last.
pub fn find_value(input: &[u8], key: &[u8]) -> (span: Option<(usize, usize)>)
    ensures
        match span {
            Some((a, b)) => value_span(input@, key@) == Some((a as nat, b as nat)) && a < b
                <= input.len(),
            None => value_span(input@, key@) is None,
        },
{
    if input.len() == 0 || input[0] != BENCODE_DICT_PREFIX {
        return None;
    }
    let mut pos: usize = 1;
    loop
        invariant
            1 <= pos <= input.len(),
            input@[0] == BENCODE_DICT_PREFIX,
            pairs_span(input@.skip(1), key@) == later_span(
                (pos - 1) as nat,
                pairs_span(input@.skip(pos as int), key@),
            ),
        decreases input.len() - pos,
    {
        if pos >= input.len() || !is_digit_byte(input[pos]) {
            return None;
        }
        let rest = slice_subrange(input, pos, input.len());
        assert(rest@ == input@.skip(pos as int));
        let (found, kn) = match decode_string(rest) {
            Err(_) => { return None; },
            Ok(found) => found,
        };
        let after_key = slice_subrange(input, pos + kn, input.len());
        assert(after_key@ =~= rest@.skip(kn as int));
        let vn = match decode(after_key) {
            Err(_) => { return None; },
            Ok(p) => p.length,
        };
        match super::model::key_order(found.as_slice(), key) {
            super::model::KeyOrder::Same => {
                return Some((pos + kn, pos + kn + vn));
            },
            _ => {},
        }
        assert(rest@.skip((kn + vn) as int) =~= input@.skip(pos + kn + vn));
        pos += kn + vn;
    }
}

} // verus!
