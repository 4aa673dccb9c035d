//! What the decoder accepts, as functions on byte sequences. Each function
//! reads one item at the front of its input and gives the item with the number
//! of bytes it takes, or the reason why there is none.

use vstd::prelude::*;
use super::model::{BencodeError, Term};
use super::model::{has_key, insert_entry};

verus! {

/// `e`, which ends an integer, a list and a dictionary.
pub const BENCODE_END: u8 = 0x65;

/// `:`, which parts the length of a byte string from its bytes.
pub const BENCODE_STRING_SPLIT_CHAR: u8 = 0x3a;

/// `i`, which begins an integer.
pub const BENCODE_INT_PREFIX: u8 = 0x69;

/// `l`, which begins a list.
pub const BENCODE_LIST_PREFIX: u8 = 0x6c;

/// `d`, which begins a dictionary.
pub const BENCODE_DICT_PREFIX: u8 = 0x64;

/// `-`, the sign of a negative integer.
pub const BENCODE_MINUS: u8 = 0x2d;

/// `0`, the first of the ten digits.
pub const BENCODE_ZERO: u8 = 0x30;

/// A decimal digit of ASCII.
pub open spec fn is_digit(b: u8) -> bool {
    BENCODE_ZERO <= b && b <= BENCODE_ZERO + 9
}

/// The first position at or after `i` that holds no decimal digit (the length
/// of `s` if there is none).
pub open spec fn digits_end(s: Seq<u8>, i: int) -> int
    decreases s.len() - i,
{
    if 0 <= i < s.len() && is_digit(s[i]) {
        digits_end(s, i + 1)
    } else {
        i
    }
}

/// The number that the decimal digits `s` write.
pub open spec fn decimal_value(s: Seq<u8>) -> nat
    decreases s.len(),
{
    if s.len() == 0 {
        0
    } else {
        decimal_value(s.drop_last()) * 10 + (s.last() - BENCODE_ZERO) as nat
    }
}

/// From `i` up to `digits_end(s, i)` there are digits only, and no digit
/// follows them.
pub proof fn lemma_digits_end(s: Seq<u8>, i: int)
    requires
        0 <= i <= s.len(),
    ensures
        i <= digits_end(s, i) <= s.len(),
        forall|k: int| i <= k < digits_end(s, i) ==> is_digit(#[trigger] s[k]),
        digits_end(s, i) < s.len() ==> !is_digit(s[digits_end(s, i)]),
    decreases s.len() - i,
{
    if i < s.len() && is_digit(s[i]) {
        lemma_digits_end(s, i + 1);
    }
}

/// A run of digits that stops at `end` makes `end` the end of the digits.
pub proof fn lemma_digits_end_is(s: Seq<u8>, i: int, end: int)
    requires
        0 <= i <= end <= s.len(),
        forall|k: int| i <= k < end ==> is_digit(#[trigger] s[k]),
        end < s.len() ==> !is_digit(s[end]),
    ensures
        digits_end(s, i) == end,
    decreases end - i,
{
    if i < end {
        lemma_digits_end_is(s, i + 1, end);
    }
}

/// More digits never write a smaller number.
pub proof fn lemma_decimal_value_grows(s: Seq<u8>, a: int, i: int, j: int)
    requires
        0 <= a <= i <= j <= s.len(),
        forall|k: int| a <= k < j ==> is_digit(#[trigger] s[k]),
    ensures
        decimal_value(s.subrange(a, i)) <= decimal_value(s.subrange(a, j)),
    decreases j - i,
{
    if i < j {
        lemma_decimal_value_grows(s, a, i, j - 1);
        assert(s.subrange(a, j).drop_last() == s.subrange(a, j - 1));
        assert(is_digit(s[j - 1]));
    }
}

/// An integer: `i`, an optional `-`, decimal digits, `e`. Input that ends
/// before the `e` is truncated. Digits followed by another byte than `e`, no
/// digit at all, a zero before other digits, and a number outside `i64` make
/// a bad integer; `-0` has an error of its own.
pub open spec fn parse_int(s: Seq<u8>) -> Result<(Term, nat), BencodeError> {
    if s.len() == 0 {
        Err(BencodeError::TruncatedInput)
    } else if s[0] != BENCODE_INT_PREFIX {
        Err(BencodeError::InvalidLeadingByte)
    } else {
        let negative = s.len() > 1 && s[1] == BENCODE_MINUS;
        let start: int = if negative { 2 } else { 1 };
        let end = digits_end(s, start);
        if end >= s.len() {
            Err(BencodeError::TruncatedInput)
        } else if s[end] != BENCODE_END {
            Err(BencodeError::BadInteger)
        } else if end == start {
            Err(BencodeError::BadInteger)
        } else if s[start] == BENCODE_ZERO && end - start > 1 {
            Err(BencodeError::BadInteger)
        } else if negative && s[start] == BENCODE_ZERO {
            Err(BencodeError::NegativeZero)
        } else {
            let magnitude = decimal_value(s.subrange(start, end));
            let n: int = if negative { -magnitude } else { magnitude as int };
            if n < i64::MIN || n > i64::MAX {
                Err(BencodeError::BadInteger)
            } else {
                Ok((Term::Int(n as i64), (end + 1) as nat))
            }
        }
    }
}

/// A byte string: a decimal length, `:`, then that many bytes. The length may
/// have zeros in front. Input that ends before the `:` or before the last of
/// the bytes is truncated; a length that 64 bits cannot hold overflows.
pub open spec fn parse_string(s: Seq<u8>) -> Result<(Seq<u8>, nat), BencodeError> {
    if s.len() == 0 {
        Err(BencodeError::TruncatedInput)
    } else if !is_digit(s[0]) {
        Err(BencodeError::InvalidLeadingByte)
    } else {
        let end = digits_end(s, 0);
        if end >= s.len() {
            Err(BencodeError::TruncatedInput)
        } else if s[end] != BENCODE_STRING_SPLIT_CHAR {
            Err(BencodeError::BadInteger)
        } else {
            let n = decimal_value(s.subrange(0, end));
            if n > u64::MAX {
                Err(BencodeError::LengthOverflow)
            } else if n > s.len() - end - 1 {
                Err(BencodeError::TruncatedInput)
            } else {
                Ok((s.subrange(end + 1, end + 1 + n), (end + 1 + n) as nat))
            }
        }
    }
}

/// A byte string, as a value.
pub open spec fn parse_bytes(s: Seq<u8>) -> Result<(Term, nat), BencodeError> {
    match parse_string(s) {
        Ok((bytes, n)) => Ok((Term::Bytes(bytes), n)),
        Err(e) => Err(e),
    }
}

/// Any value, told by its first byte.
pub open spec fn parse_value(s: Seq<u8>) -> Result<(Term, nat), BencodeError>
    decreases s.len(), 2int,
{
    if s.len() == 0 {
        Err(BencodeError::TruncatedInput)
    } else if is_digit(s[0]) {
        parse_bytes(s)
    } else if s[0] == BENCODE_INT_PREFIX {
        parse_int(s)
    } else if s[0] == BENCODE_LIST_PREFIX {
        parse_list(s)
    } else if s[0] == BENCODE_DICT_PREFIX {
        parse_dict(s)
    } else {
        Err(BencodeError::InvalidLeadingByte)
    }
}

/// A list: `l`, values, `e`.
pub open spec fn parse_list(s: Seq<u8>) -> Result<(Term, nat), BencodeError>
    decreases s.len(), 1int,
{
    if s.len() == 0 {
        Err(BencodeError::TruncatedInput)
    } else if s[0] != BENCODE_LIST_PREFIX {
        Err(BencodeError::InvalidLeadingByte)
    } else {
        match parse_items(s.skip(1)) {
            Ok((items, n)) => Ok((Term::List(items), n + 1)),
            Err(e) => Err(e),
        }
    }
}

/// Values up to and including the closing `e`. (A value takes at least one
/// byte; the test on `n` only keeps the definition well-founded.)
pub open spec fn parse_items(s: Seq<u8>) -> Result<(Seq<Term>, nat), BencodeError>
    decreases s.len(), 3int,
{
    if s.len() == 0 {
        Err(BencodeError::TruncatedInput)
    } else if s[0] == BENCODE_END {
        Ok((Seq::empty(), 1))
    } else {
        match parse_value(s) {
            Err(e) => Err(e),
            Ok((v, n)) => if !(0 < n <= s.len()) {
                Err(BencodeError::TruncatedInput)
            } else {
                match parse_items(s.skip(n as int)) {
                    Err(e) => Err(e),
                    Ok((rest, m)) => Ok((seq![v] + rest, n + m)),
                }
            },
        }
    }
}

/// A dictionary: `d`, pairs of a byte-string key and a value, `e`. The pairs
/// may come in any order; the value holds them in ascending key order.
pub open spec fn parse_dict(s: Seq<u8>) -> Result<(Term, nat), BencodeError>
    decreases s.len(), 1int,
{
    if s.len() == 0 {
        Err(BencodeError::TruncatedInput)
    } else if s[0] != BENCODE_DICT_PREFIX {
        Err(BencodeError::InvalidLeadingByte)
    } else {
        match parse_pairs(s.skip(1)) {
            Err(e) => Err(e),
            Ok((pairs, n)) => match sort_pairs(pairs) {
                Err(e) => Err(e),
                Ok(entries) => Ok((Term::Dict(entries), n + 1)),
            },
        }
    }
}

/// Key and value pairs, in the order of the input, up to and including the
/// closing `e`. (The tests on `kn` and `vn` only keep the definition
/// well-founded.)
pub open spec fn parse_pairs(s: Seq<u8>) -> Result<(Seq<(Seq<u8>, Term)>, nat), BencodeError>
    decreases s.len(), 3int,
{
    if s.len() == 0 {
        Err(BencodeError::TruncatedInput)
    } else if s[0] == BENCODE_END {
        Ok((Seq::empty(), 1))
    } else if !is_digit(s[0]) {
        Err(BencodeError::BadDictKey)
    } else {
        match parse_string(s) {
            Err(e) => Err(e),
            Ok((key, kn)) => if !(0 < kn <= s.len()) {
                Err(BencodeError::TruncatedInput)
            } else {
                match parse_value(s.skip(kn as int)) {
                    Err(e) => Err(e),
                    Ok((v, vn)) => if !(0 < vn <= s.len() - kn) {
                        Err(BencodeError::TruncatedInput)
                    } else {
                        match parse_pairs(s.skip((kn + vn) as int)) {
                            Err(e) => Err(e),
                            Ok((rest, m)) => Ok((seq![(key, v)] + rest, kn + vn + m)),
                        }
                    },
                }
            },
        }
    }
}

/// Where the value of the first pair with the key `key` stands among the
/// pairs at the front of `s`: the places of its first byte and of the byte
/// after its last. (The tests on `kn` and `vn` only keep the definition
/// well-founded.)
pub open spec fn pairs_span(s: Seq<u8>, key: Seq<u8>) -> Option<(nat, nat)>
    decreases s.len(),
{
    if s.len() == 0 || !is_digit(s[0]) {
        None
    } else {
        match parse_string(s) {
            Err(_) => None,
            Ok((k, kn)) => if !(0 < kn <= s.len()) {
                None
            } else {
                match parse_value(s.skip(kn as int)) {
                    Err(_) => None,
                    Ok((_, vn)) => if !(0 < vn <= s.len() - kn) {
                        None
                    } else if k == key {
                        Some((kn, kn + vn))
                    } else {
                        match pairs_span(s.skip((kn + vn) as int), key) {
                            None => None,
                            Some((a, b)) => Some((kn + vn + a, kn + vn + b)),
                        }
                    },
                }
            },
        }
    }
}

/// Where the value that the dictionary at the front of `s` binds to `key`
/// stands in `s`, as it was written.
pub open spec fn value_span(s: Seq<u8>, key: Seq<u8>) -> Option<(nat, nat)> {
    if s.len() > 0 && s[0] == BENCODE_DICT_PREFIX {
        match pairs_span(s.skip(1), key) {
            None => None,
            Some((a, b)) => Some((a + 1, b + 1)),
        }
    } else {
        None
    }
}

/// The pairs in ascending key order, or `DuplicateKey` where two of them share
/// a key.
pub open spec fn sort_pairs(pairs: Seq<(Seq<u8>, Term)>) -> Result<
    Seq<(Seq<u8>, Term)>,
    BencodeError,
>
    decreases pairs.len(),
{
    if pairs.len() == 0 {
        Ok(Seq::empty())
    } else {
        match sort_pairs(pairs.skip(1)) {
            Err(e) => Err(e),
            Ok(entries) => if has_key(entries, pairs[0].0) {
                Err(BencodeError::DuplicateKey)
            } else {
                Ok(insert_entry(entries, pairs[0].0, pairs[0].1))
            },
        }
    }
}

} // verus!
