use bittorrent::bencode::decode::{
    bdecode_dict, bdecode_list, bdecode_num, bdecode_string, decode, find_value, BencodeType,
};
use bittorrent::bencode::laws::is_canonical_text;
use bittorrent::bencode::encode::encode;
use bittorrent::bencode::model::{BencodeError, Dict, Value};

fn text(s: &str) -> Value {
    Value::Bytes(s.as_bytes().to_vec())
}

fn dict(pairs: Vec<(&str, Value)>) -> Value {
    let mut d = Dict::new();
    for (k, v) in pairs {
        assert!(d.insert(k.as_bytes().to_vec(), v));
    }
    Value::Dict(d)
}

fn hello_dict() -> Value {
    dict(vec![("hello", Value::Int(52)), ("foo", text("bar"))])
}

#[test]
fn test_bdecode_list() {
    let cases: Vec<(&str, Value)> = vec![
        ("l5:helloi52ee", Value::List(vec![text("hello"), Value::Int(52)])),
        ("l5:helloi52ei43ee", Value::List(vec![text("hello"), Value::Int(52), Value::Int(43)])),
        (
            "l5:helloi52ei43e4:adade",
            Value::List(vec![text("hello"), Value::Int(52), Value::Int(43), text("adad")]),
        ),
        (
            "l5:helloi52ei43e4:adadd3:foo3:bar5:helloi52eee",
            Value::List(vec![
                text("hello"),
                Value::Int(52),
                Value::Int(43),
                text("adad"),
                hello_dict(),
            ]),
        ),
        (
            "l5:helloi52ei43e4:adadd3:foo3:bar5:helloi52eei1337ee",
            Value::List(vec![
                text("hello"),
                Value::Int(52),
                Value::Int(43),
                text("adad"),
                hello_dict(),
                Value::Int(1337),
            ]),
        ),
    ];
    for (input, expected) in cases {
        let decoded = bdecode_list(input.as_bytes()).unwrap();
        assert_eq!(expected, decoded.value);
    }
}

#[test]
fn test_bdecode_dict() {
    let cases: Vec<(&str, Value)> = vec![
        ("d3:foo3:bar5:helloi52ee", hello_dict()),
        (
            "d3:foo3:bar5:helloi52e4:listl5:helloi52ee2:asi1337ee",
            dict(vec![
                ("hello", Value::Int(52)),
                ("foo", text("bar")),
                ("list", Value::List(vec![text("hello"), Value::Int(52)])),
                ("as", Value::Int(1337)),
            ]),
        ),
        (
            "d8:announce55:http://bittorrent-test-tracker.codecrafters.io/announce10:created by13:mktorrent 1.14:infod6:lengthi92063e4:name10:sample.txt12:piece lengthi32768e6:pieces1:aee",
            dict(vec![
                ("announce", text("http://bittorrent-test-tracker.codecrafters.io/announce")),
                ("created by", text("mktorrent 1.1")),
                (
                    "info",
                    dict(vec![
                        ("length", Value::Int(92063)),
                        ("name", text("sample.txt")),
                        ("piece length", Value::Int(32768)),
                        ("pieces", text("a")),
                    ]),
                ),
            ]),
        ),
    ];
    for (input, expected) in cases {
        let decoded = bdecode_dict(input.as_bytes()).unwrap();
        assert_eq!(expected, decoded.value);
    }
}

#[test]
fn decode_scenarios() {
    assert_eq!(decode(b"5:hello").unwrap().value, text("hello"));
    assert_eq!(decode(b"i52e").unwrap().value, Value::Int(52));
    assert_eq!(
        decode(b"l5:helloi52ee").unwrap().value,
        Value::List(vec![text("hello"), Value::Int(52)])
    );
    assert_eq!(
        decode(b"d3:foo3:bar5:helloi52ee").unwrap().value,
        dict(vec![("foo", text("bar")), ("hello", Value::Int(52))])
    );
}

#[test]
fn decode_reports_consumed_length() {
    assert_eq!(decode(b"5:helloXYZ").unwrap().length, 7);
    assert_eq!(decode(b"i-17eXYZ").unwrap().length, 5);
    assert_eq!(decode(b"li1eeXYZ").unwrap().length, 5);
    assert_eq!(decode(b"d1:ai1eeXYZ").unwrap().length, 8);
    assert_eq!(decode(b"0:").unwrap().value, Value::Bytes(vec![]));
}

#[test]
fn integer_parser_rejects_malformed() {
    assert_eq!(bdecode_num(b"i-0e").unwrap_err(), BencodeError::NegativeZero);
    assert_eq!(bdecode_num(b"i03e").unwrap_err(), BencodeError::BadInteger);
    assert_eq!(bdecode_num(b"i-e").unwrap_err(), BencodeError::BadInteger);
    assert_eq!(bdecode_num(b"ie").unwrap_err(), BencodeError::BadInteger);
    assert_eq!(decode(b"i-0e").unwrap_err(), BencodeError::NegativeZero);
    assert_eq!(decode(b"i03e").unwrap_err(), BencodeError::BadInteger);
    assert_eq!(decode(b"i-e").unwrap_err(), BencodeError::BadInteger);
    assert_eq!(decode(b"ie").unwrap_err(), BencodeError::BadInteger);
    assert_eq!(bdecode_num(b"i1x2e").unwrap_err(), BencodeError::BadInteger);
    assert_eq!(bdecode_num(b"i--1e").unwrap_err(), BencodeError::BadInteger);
    assert_eq!(bdecode_num(b"i12").unwrap_err(), BencodeError::TruncatedInput);
    assert_eq!(bdecode_num(b"i").unwrap_err(), BencodeError::TruncatedInput);
    assert_eq!(bdecode_num(b"").unwrap_err(), BencodeError::TruncatedInput);
    assert_eq!(bdecode_num(b"x1e").unwrap_err(), BencodeError::InvalidLeadingByte);
}

#[test]
fn integer_parser_range() {
    assert_eq!(bdecode_num(b"i0e").unwrap().value, Value::Int(0));
    assert_eq!(
        bdecode_num(b"i9223372036854775807e").unwrap().value,
        Value::Int(i64::MAX)
    );
    assert_eq!(
        bdecode_num(b"i-9223372036854775808e").unwrap().value,
        Value::Int(i64::MIN)
    );
    assert_eq!(
        bdecode_num(b"i9223372036854775808e").unwrap_err(),
        BencodeError::BadInteger
    );
    assert_eq!(
        bdecode_num(b"i-9223372036854775809e").unwrap_err(),
        BencodeError::BadInteger
    );
    assert_eq!(
        bdecode_num(b"i123456789012345678901234567890e").unwrap_err(),
        BencodeError::BadInteger
    );
}

#[test]
fn string_parser_rejects_long_lengths() {
    assert_eq!(bdecode_string(b"6:hello").unwrap_err(), BencodeError::TruncatedInput);
    assert_eq!(bdecode_string(b"1:").unwrap_err(), BencodeError::TruncatedInput);
    assert_eq!(decode(b"10:abc").unwrap_err(), BencodeError::TruncatedInput);
    assert_eq!(
        bdecode_string(b"18446744073709551616:x").unwrap_err(),
        BencodeError::LengthOverflow
    );
    assert_eq!(
        bdecode_string(b"18446744073709551615:x").unwrap_err(),
        BencodeError::TruncatedInput
    );
    assert_eq!(bdecode_string(b"5").unwrap_err(), BencodeError::TruncatedInput);
    assert_eq!(bdecode_string(b"5x").unwrap_err(), BencodeError::BadInteger);
    assert_eq!(bdecode_string(b":abc").unwrap_err(), BencodeError::InvalidLeadingByte);
    assert_eq!(bdecode_string(b"").unwrap_err(), BencodeError::TruncatedInput);
    assert_eq!(bdecode_string(b"005:hello").unwrap().value, text("hello"));
}

#[test]
fn every_error_variant_has_an_input() {
    assert_eq!(decode(b"x").unwrap_err(), BencodeError::InvalidLeadingByte);
    assert_eq!(decode(b"").unwrap_err(), BencodeError::TruncatedInput);
    assert_eq!(decode(b"li1e").unwrap_err(), BencodeError::TruncatedInput);
    assert_eq!(decode(b"d1:a").unwrap_err(), BencodeError::TruncatedInput);
    assert_eq!(decode(b"i0x10e").unwrap_err(), BencodeError::BadInteger);
    assert_eq!(decode(b"i-0e").unwrap_err(), BencodeError::NegativeZero);
    assert_eq!(decode(b"99999999999999999999:").unwrap_err(), BencodeError::LengthOverflow);
    assert_eq!(decode(b"di1ei2ee").unwrap_err(), BencodeError::BadDictKey);
    assert_eq!(decode(b"d1:ai1e1:ai2ee").unwrap_err(), BencodeError::DuplicateKey);
    assert_eq!(decode(b"d1:ae").unwrap_err(), BencodeError::InvalidLeadingByte);
    assert_eq!(bdecode_list(b"i1e").unwrap_err(), BencodeError::InvalidLeadingByte);
    assert_eq!(bdecode_dict(b"le").unwrap_err(), BencodeError::InvalidLeadingByte);
}

#[test]
fn syntax_errors_come_before_duplicate_keys() {
    assert_eq!(decode(b"d1:ai1e1:ai2ex").unwrap_err(), BencodeError::BadDictKey);
    assert_eq!(decode(b"d1:ai1e1:ai2e").unwrap_err(), BencodeError::TruncatedInput);
    assert_eq!(decode(b"d1:ai1e1:ai2e1:bxe").unwrap_err(), BencodeError::InvalidLeadingByte);
}

#[test]
fn nested_lists_keep_their_shape() {
    let v = decode(b"lli1eelee").unwrap().value;
    assert_eq!(
        v,
        Value::List(vec![Value::List(vec![Value::Int(1)]), Value::List(vec![])])
    );
}

#[test]
fn decoder_sorts_dictionary_keys() {
    let v = decode(b"d1:bi2e1:ai1ee").unwrap().value;
    match &v {
        Value::Dict(d) => {
            assert_eq!(d.len(), 2);
            assert_eq!(d.key_at(0), &b"a".to_vec());
            assert_eq!(d.key_at(1), &b"b".to_vec());
            assert_eq!(d.value_at(0), &Value::Int(1));
            assert_eq!(d.get(b"b"), Some(&Value::Int(2)));
            assert_eq!(d.get(b"c"), None);
        }
        _ => panic!("not a dictionary"),
    }
    assert_eq!(encode(&v), b"d1:ai1e1:bi2ee".to_vec());
}

#[test]
fn dict_orders_keys_by_raw_bytes() {
    let mut d = Dict::new();
    assert!(d.insert(b"b".to_vec(), Value::Int(1)));
    assert!(d.insert(b"ab".to_vec(), Value::Int(2)));
    assert!(d.insert(b"a".to_vec(), Value::Int(3)));
    assert!(d.insert(vec![0xff], Value::Int(4)));
    assert!(d.insert(vec![], Value::Int(5)));
    assert!(!d.insert(b"a".to_vec(), Value::Int(6)));
    assert_eq!(d.len(), 5);
    assert_eq!(d.key_at(0), &Vec::<u8>::new());
    assert_eq!(d.key_at(1), &b"a".to_vec());
    assert_eq!(d.key_at(2), &b"ab".to_vec());
    assert_eq!(d.key_at(3), &b"b".to_vec());
    assert_eq!(d.key_at(4), &vec![0xffu8]);
    assert_eq!(d.get(b"a"), Some(&Value::Int(3)));
}

#[test]
fn encode_is_canonical() {
    assert_eq!(encode(&Value::Int(0)), b"i0e".to_vec());
    assert_eq!(encode(&Value::Int(-42)), b"i-42e".to_vec());
    assert_eq!(encode(&Value::Int(i64::MIN)), b"i-9223372036854775808e".to_vec());
    assert_eq!(encode(&Value::Int(i64::MAX)), b"i9223372036854775807e".to_vec());
    assert_eq!(encode(&text("hello")), b"5:hello".to_vec());
    assert_eq!(encode(&text("")), b"0:".to_vec());
    assert_eq!(encode(&text("0123456789")), b"10:0123456789".to_vec());
    assert_eq!(
        encode(&Value::List(vec![text("hello"), Value::Int(52)])),
        b"l5:helloi52ee".to_vec()
    );
    assert_eq!(encode(&hello_dict()), b"d3:foo3:bar5:helloi52ee".to_vec());
}

#[test]
fn round_trip_of_canonical_text() {
    let inputs: Vec<&[u8]> = vec![
        b"i0e",
        b"i-1e",
        b"0:",
        b"4:\x00\xff\x80e",
        b"le",
        b"de",
        b"d1:ad1:bl1:cee1:di-5ee",
        b"d8:announce55:http://bittorrent-test-tracker.codecrafters.io/announce10:created by13:mktorrent 1.14:infod6:lengthi92063e4:name10:sample.txt12:piece lengthi32768e6:pieces1:aee",
    ];
    for x in inputs {
        let p = decode(x).unwrap();
        assert_eq!(p.length, x.len());
        assert_eq!(encode(&p.value), x.to_vec());
    }
}

#[test]
fn round_trip_of_values() {
    let values = vec![
        Value::Int(7),
        text("spam"),
        Value::List(vec![Value::List(vec![]), hello_dict(), Value::Int(-9)]),
        dict(vec![("z", Value::Int(1)), ("a", Value::List(vec![text("x")])), ("m", hello_dict())]),
    ];
    for y in values {
        let bytes = encode(&y);
        let p = decode(&bytes).unwrap();
        assert_eq!(p.length, bytes.len());
        assert_eq!(p.value, y);
    }
}

#[test]
fn find_value_gives_the_raw_span() {
    let input = b"d1:ai1e4:infod1:zi1e1:ai2ee1:b0:e";
    let (a, b) = find_value(input, b"info").unwrap();
    assert_eq!(&input[a..b], b"d1:zi1e1:ai2ee");
    assert_eq!(find_value(input, b"a"), Some((4, 7)));
    assert_eq!(find_value(input, b"b"), Some((30, 32)));
    assert_eq!(find_value(input, b"c"), None);
    assert_eq!(find_value(b"li1ee", b"a"), None);
    assert_eq!(find_value(b"", b"a"), None);
}

#[test]
fn first_byte_tells_the_kind() {
    for b in b'0'..=b'9' {
        assert_eq!(BencodeType::new(b), BencodeType::String);
    }
    assert_eq!(BencodeType::new(b'i'), BencodeType::Number);
    assert_eq!(BencodeType::new(b'l'), BencodeType::List);
    assert_eq!(BencodeType::new(b'd'), BencodeType::Dictionary);
    for b in [b'e', b'-', b':', b'/', b'I', 0u8, 0xff] {
        assert_eq!(BencodeType::new(b), BencodeType::Invalid);
    }
}

#[test]
fn canonical_texts_are_told_apart() {
    assert!(is_canonical_text(b"i0e"));
    assert!(is_canonical_text(b"d1:ai1e1:bi2ee"));
    assert!(is_canonical_text(b"l5:helloi52ee"));
    // keys out of order
    assert!(!is_canonical_text(b"d1:bi2e1:ai1ee"));
    // a length with a leading zero
    assert!(!is_canonical_text(b"05:hello"));
    // bytes after the value
    assert!(!is_canonical_text(b"i0ei1e"));
    // no bencode at all
    assert!(!is_canonical_text(b"i-0e"));
    assert!(!is_canonical_text(b""));
}
