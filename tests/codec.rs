use std::cmp::Ordering;

use ssb_legacy_msg::cbor::{self, CborDeserializer, CborSerializer, DecodeCborError};
use ssb_legacy_msg::json::{self, DecodeJsonError, JsonSerializer};
use ssb_legacy_msg::{
    is_i64_valid, is_nat_str, is_u64_valid, is_well_formed, legacy_length, to_weird_encoding, GraphicolexicalString,
    LegacyF64, ObjectAccessState, RidiculousStringMap, Value, ValueOrdered,
};

fn float(f: f64) -> Value {
    Value::Float(LegacyF64::from_bits(f.to_bits()).unwrap())
}

fn nulls(n: usize) -> Vec<Value> {
    let mut v = Vec::new();
    for _ in 0..n {
        v.push(Value::Null);
    }
    v
}

fn numbers_of(fs: &[f64]) -> Vec<(u64, String)> {
    fs.iter()
        .map(|f| (f.to_bits(), ryu_ecmascript::Buffer::new().format(*f).to_string()))
        .collect()
}

fn text(v: &Value, compact: bool, fs: &[f64]) -> String {
    String::from_utf8(json::to_vec(v, compact, &numbers_of(fs))).unwrap()
}

#[test]
fn de_fixtures() {
    assert!(cbor::from_slice(&[0x00]).is_err()); // 0
    assert!(cbor::from_slice(&[0x17]).is_err()); // 23
    assert!(cbor::from_slice(&[0x18]).is_err()); // not enough input
    assert!(cbor::from_slice(&[0x18, 0x18]).is_err()); // 24
    assert!(cbor::from_slice(&[0x19, 0x03, 0xe8]).is_err()); // 1000
    assert!(cbor::from_slice(&[0x20]).is_err()); // -1
    assert!(cbor::from_slice(&[0x38, 0x63]).is_err()); // -100
    assert!(cbor::from_slice(&[0xf9, 0x00, 0x00]).is_err()); // 0.0f16
    assert_eq!(cbor::from_slice(&[0xf4]).unwrap(), Value::Bool(false));
    assert_eq!(cbor::from_slice(&[0xf5]).unwrap(), Value::Bool(true));
    assert_eq!(cbor::from_slice(&[0xf6]).unwrap(), Value::Null);
    assert_eq!(
        cbor::from_slice(&[0xfb, 0x3f, 0xf1, 0x99, 0x99, 0x99, 0x99, 0x99, 0x9a]).unwrap(),
        float(1.1)
    );
    assert!(cbor::from_slice(&[0xf7]).is_err()); // undefined
    assert!(cbor::from_slice(&[0xfb, 0x7f, 0xf0, 0x00, 0x00, 0x00, 0x00, 0x00, 0x00]).is_err()); // Infinity
    assert!(cbor::from_slice(&[0xfb, 0x7f, 0xf8, 0x00, 0x00, 0x00, 0x00, 0x00, 0x00]).is_err()); // NaN
    assert!(cbor::from_slice(&[0xfb, 0xff, 0xf0, 0x00, 0x00, 0x00, 0x00, 0x00, 0x00]).is_err()); // -Infinity
    assert!(cbor::from_slice(&[0x80, 0x00, 0x00, 0x00, 0x00, 0x00, 0x00, 0x00, 0x00]).is_err()); // -0.0
    assert!(cbor::from_slice(&[0xf0]).is_err()); // simple(16)
    assert!(cbor::from_slice(&[0x40]).is_err()); // h''
    assert_eq!(cbor::from_slice(&[0x60]).unwrap(), Value::String("".to_string()));
    assert_eq!(cbor::from_slice(&[0x61, 0x61]).unwrap(), Value::String("a".to_string()));
    assert_eq!(cbor::from_slice(&[0x80]).unwrap(), Value::Array(vec![]));
    assert_eq!(
        cbor::from_slice(&[0x83, 0xf6, 0xf6, 0xf6]).unwrap(),
        Value::Array(vec![Value::Null, Value::Null, Value::Null])
    );
    assert_eq!(
        cbor::from_slice(&[
            0x98, 0x19, 0xf6, 0xf6, 0xf6, 0xf6, 0xf6, 0xf6, 0xf6, 0xf6, 0xf6, 0xf6, 0xf6, 0xf6,
            0xf6, 0xf6, 0xf6, 0xf6, 0xf6, 0xf6, 0xf6, 0xf6, 0xf6, 0xf6, 0xf6, 0xf6, 0xf6
        ])
        .unwrap(),
        Value::Array(nulls(25))
    );
    assert_eq!(cbor::from_slice(&[0xa0]).unwrap(), Value::Object(vec![]));
    assert!(cbor::from_slice(&[0xa1, 0xf6, 0xf6]).is_err()); // {null: null}
    assert!(cbor::from_slice(&[0xa2, 0xf6, 0xf6, 0xf6, 0xf6]).is_err()); // {null: null, null: null}

    let foo = Value::Object(vec![
        ("a".to_string(), Value::Null),
        ("b".to_string(), Value::Array(vec![Value::Null, Value::Null])),
    ]);
    assert_eq!(
        cbor::from_slice(&[0xa2, 0x61, 0x61, 0xf6, 0x61, 0x62, 0x82, 0xf6, 0xf6]).unwrap(),
        foo
    );

    assert!(cbor::from_slice(&[0xa2, 0x61, 0x61, 0xf6, 0x61, 0x61, 0x82, 0xf6, 0xf6]).is_err()); // {"a": null, "a": [null, null]}
}

#[test]
fn signing_form_sorts_natural_keys_first() {
    let input = br#"{"b":1,"a":2,"10":3,"2":4,"0":5}"#;
    let v = json::from_slice_ordered(input).unwrap();
    let numbers = numbers_of(&[1.0, 2.0, 3.0, 4.0, 5.0]);
    let out = String::from_utf8(json::to_vec_ordered(&v, false, &numbers)).unwrap();
    assert_eq!(out, "{\n  \"0\": 5,\n  \"2\": 4,\n  \"10\": 3,\n  \"b\": 1,\n  \"a\": 2\n}");
}

#[test]
fn binary_rejects_half_float() {
    assert_eq!(cbor::from_slice(&[0xf9, 0x00, 0x00]), Err(DecodeCborError::ForbiddenType));
}

#[test]
fn binary_rejects_duplicate_key() {
    assert_eq!(
        cbor::from_slice(&[0xa2, 0x61, 0x61, 0xf6, 0x61, 0x61, 0x80]),
        Err(DecodeCborError::DuplicateKey)
    );
}

#[test]
fn text_rejects_negative_zero() {
    assert_eq!(json::from_slice(b"-0"), Err(DecodeJsonError::InvalidNumber));
    assert_eq!(json::from_slice(b"-0.0e5"), Err(DecodeJsonError::InvalidNumber));
}

#[test]
fn binary_accepts_one_point_one() {
    let bytes = [0xfb, 0x3f, 0xf1, 0x99, 0x99, 0x99, 0x99, 0x99, 0x9a];
    let v = cbor::from_slice(&bytes).unwrap();
    assert_eq!(v, float(1.1));
    assert_eq!(cbor::to_vec(&v), bytes.to_vec());
}

#[test]
fn text_rejects_unescaped_control() {
    assert_eq!(json::from_slice(b"\"\x01\""), Err(DecodeJsonError::InvalidStringContent));
    assert_eq!(json::from_slice(b"\"\\u0001\"").unwrap(), Value::String("\u{1}".to_string()));
}

#[test]
fn weird_encoding_of_e_acute() {
    let mut it = to_weird_encoding("\u{e9}");
    assert_eq!(it.next(), Some(0xe9));
    assert_eq!(it.next(), None);
    assert_eq!(legacy_length("\u{e9}"), 1);
}

#[test]
fn weird_encoding_length_is_utf16_length() {
    for s in ["", "abc", "\u{e9}t\u{e9}", "\u{1f600}", "a\u{10ffff}\u{800}z"] {
        let units: Vec<u16> = s.encode_utf16().collect();
        assert_eq!(legacy_length(s), units.len());
        let mut it = to_weird_encoding(s);
        for u in units {
            assert_eq!(it.next(), Some(u as u8));
        }
        assert_eq!(it.next(), None);
    }
    let mut it = to_weird_encoding("\u{1f600}");
    assert_eq!(it.next(), Some(0x3d));
    assert_eq!(it.next(), Some(0x00));
}

fn sample() -> Value {
    Value::Object(vec![
        ("z".to_string(), Value::Array(vec![Value::Null, Value::Bool(true), float(-1.5)])),
        ("1".to_string(), Value::String("line\nbreak \"q\" \\ \u{1}\u{b}\u{e9}\u{1f600}".to_string())),
        ("empty".to_string(), Value::Array(vec![])),
        ("o".to_string(), Value::Object(vec![])),
        ("n".to_string(), float(100.0)),
        ("f".to_string(), Value::Bool(false)),
    ])
}

#[test]
fn text_round_trip() {
    let v = sample();
    for compact in [true, false] {
        let bytes = json::to_vec(&v, compact, &numbers_of(&[-1.5, 100.0]));
        assert_eq!(json::from_slice(&bytes).unwrap(), v);
    }
}

#[test]
fn binary_round_trip() {
    let v = sample();
    assert_eq!(cbor::from_slice(&cbor::to_vec(&v)).unwrap(), v);
}

#[test]
fn cross_format_round_trip() {
    let v = sample();
    let compact = json::to_vec(&v, true, &numbers_of(&[-1.5, 100.0]));
    let again = cbor::from_slice(&cbor::to_vec(&json::from_slice(&compact).unwrap())).unwrap();
    assert_eq!(again, v);
}

#[test]
fn compact_and_signing_forms() {
    let v = sample();
    let fs = [-1.5, 100.0];
    assert_eq!(
        text(&v, true, &fs),
        "{\"z\":[null,true,-1.5],\"1\":\"line\\nbreak \\\"q\\\" \\\\ \\u0001\\u000b\u{e9}\u{1f600}\",\"empty\":[],\"o\":{},\"n\":100,\"f\":false}"
    );
    assert_eq!(
        text(&v, false, &fs),
        "{\n  \"z\": [\n    null,\n    true,\n    -1.5\n  ],\n  \"1\": \"line\\nbreak \\\"q\\\" \\\\ \\u0001\\u000b\u{e9}\u{1f600}\",\n  \"empty\": [],\n  \"o\": {},\n  \"n\": 100,\n  \"f\": false\n}"
    );
}

#[test]
fn string_escapes() {
    let v = Value::String("\u{8}\u{c}\n\r\t\u{1f}/".to_string());
    assert_eq!(text(&v, true, &[]), "\"\\b\\f\\n\\r\\t\\u001f/\"");
    assert_eq!(
        json::from_slice(b"\"\\b\\f\\n\\r\\t\\u001F\\/\\ud83d\\ude00\"").unwrap(),
        Value::String("\u{8}\u{c}\n\r\t\u{1f}/\u{1f600}".to_string())
    );
}

#[test]
fn text_numbers() {
    assert_eq!(json::from_slice(b" 1.5 ").unwrap(), float(1.5));
    assert_eq!(json::from_slice(b"-2e3").unwrap(), float(-2000.0));
    assert_eq!(json::from_slice(b"0.25E-1").unwrap(), float(0.025));
    assert_eq!(json::from_slice(b"0").unwrap(), float(0.0));
    assert_eq!(json::from_slice(b"1e400"), Err(DecodeJsonError::InvalidNumber));
    assert_eq!(json::from_slice(b"-x"), Err(DecodeJsonError::ExpectedNumber));
    assert_eq!(json::from_slice(b"1."), Err(DecodeJsonError::UnexpectedEndOfInput));
    assert_eq!(json::from_slice(b"1.e"), Err(DecodeJsonError::Syntax));
    assert_eq!(json::from_slice(b"1e+"), Err(DecodeJsonError::UnexpectedEndOfInput));
    assert_eq!(json::from_slice(b"01"), Err(DecodeJsonError::TrailingCharacters));
}

#[test]
fn text_errors() {
    assert_eq!(json::from_slice(b""), Err(DecodeJsonError::UnexpectedEndOfInput));
    assert_eq!(json::from_slice(b"nul"), Err(DecodeJsonError::Syntax));
    assert_eq!(json::from_slice(b"x"), Err(DecodeJsonError::Syntax));
    assert_eq!(json::from_slice(b"[1 2]"), Err(DecodeJsonError::Syntax));
    assert_eq!(json::from_slice(b"[1,]"), Err(DecodeJsonError::Syntax));
    assert_eq!(json::from_slice(b"[1"), Err(DecodeJsonError::UnexpectedEndOfInput));
    assert_eq!(json::from_slice(b"{1:2}"), Err(DecodeJsonError::ExpectedString));
    assert_eq!(json::from_slice(b"{\"a\" 2}"), Err(DecodeJsonError::Syntax));
    assert_eq!(json::from_slice(b"{\"a\":1,\"a\":2}"), Err(DecodeJsonError::DuplicateKey));
    assert_eq!(json::from_slice(b"true false"), Err(DecodeJsonError::TrailingCharacters));
    assert_eq!(json::from_slice(b"\"\\x\""), Err(DecodeJsonError::InvalidStringContent));
    assert_eq!(json::from_slice(b"\"\\ud800\""), Err(DecodeJsonError::InvalidStringContent));
    assert_eq!(json::from_slice(b"\"\\udc00\""), Err(DecodeJsonError::InvalidStringContent));
    assert_eq!(json::from_slice(b"\"\\u12\""), Err(DecodeJsonError::InvalidStringContent));
    assert_eq!(json::from_slice(b"\"\xff\""), Err(DecodeJsonError::InvalidStringContent));
    assert_eq!(json::from_slice(b"\"\xc3\xa9"), Err(DecodeJsonError::UnexpectedEndOfInput));
    assert_eq!(json::from_slice(b"\"\xc3\xa9\"").unwrap(), Value::String("\u{e9}".to_string()));
    assert_eq!(
        json::from_slice(b" [ true , null ]\n").unwrap(),
        Value::Array(vec![Value::Bool(true), Value::Null])
    );
}

#[test]
fn binary_errors() {
    assert_eq!(cbor::from_slice(&[]), Err(DecodeCborError::UnexpectedEndOfInput));
    assert_eq!(cbor::from_slice(&[0x62, 0x61]), Err(DecodeCborError::InvalidLength));
    assert_eq!(cbor::from_slice(&[0x61, 0xff]), Err(DecodeCborError::InvalidStringContent));
    assert_eq!(cbor::from_slice(&[0x79, 0x00]), Err(DecodeCborError::UnexpectedEndOfInput));
    assert_eq!(cbor::from_slice(&[0xfb, 0x00]), Err(DecodeCborError::UnexpectedEndOfInput));
    assert_eq!(
        cbor::from_slice(&[0xfb, 0x80, 0, 0, 0, 0, 0, 0, 0]),
        Err(DecodeCborError::InvalidNumber)
    );
    assert_eq!(cbor::from_slice(&[0xf6, 0xf6]), Err(DecodeCborError::TrailingBytes));
    assert_eq!(cbor::from_slice(&[0xa1, 0xf6, 0xf6]), Err(DecodeCborError::ExpectedString));
    assert_eq!(cbor::from_slice(&[0x82, 0xf6]), Err(DecodeCborError::UnexpectedEndOfInput));
    assert_eq!(cbor::from_slice(&[0x9f]), Err(DecodeCborError::ForbiddenType));
    assert_eq!(cbor::from_slice(&[0x78, 0x01, 0x61]).unwrap(), Value::String("a".to_string()));
    assert_eq!(cbor::from_slice(&[0x62, 0xc3, 0xa9]).unwrap(), Value::String("\u{e9}".to_string()));
}

#[test]
fn binary_lengths_use_smallest_width() {
    let long = "x".repeat(300);
    let bytes = cbor::to_vec(&Value::String(long.clone()));
    assert_eq!(&bytes[..3], &[0x79, 0x01, 0x2c]);
    assert_eq!(bytes.len(), 303);
    assert_eq!(cbor::to_vec(&Value::Array(nulls(24)))[..2], [0x98, 0x18]);
    assert_eq!(cbor::to_vec(&Value::Array(nulls(23)))[0], 0x97);
    assert_eq!(cbor::from_slice(&bytes).unwrap(), Value::String(long));
}

#[test]
fn deserializers_and_serializers() {
    let mut de = CborDeserializer::from_slice(&[0xf5, 0xf6]);
    assert_eq!(de.parse_value().unwrap(), Value::Bool(true));
    assert_eq!(de.end(), Err(DecodeCborError::TrailingBytes));
    assert_eq!(de.parse_value().unwrap(), Value::Null);
    assert_eq!(de.end(), Ok(()));

    let mut ser = CborSerializer::new(vec![0x01]);
    ser.serialize_null();
    ser.serialize_bool(false);
    assert_eq!(ser.into_inner(), vec![0x01, 0xf6, 0xf4]);

    let mut ser = JsonSerializer::new(Vec::new(), true);
    ser.serialize_str("a\"b");
    assert_eq!(ser.into_inner(), b"\"a\\\"b\"".to_vec());
}

#[test]
fn ordered_map_iteration_order() {
    let mut m: RidiculousStringMap<u8> = RidiculousStringMap::with_capacity(4);
    assert_eq!(m.insert("b".to_string(), 1), None);
    assert_eq!(m.insert("10".to_string(), 2), None);
    assert_eq!(m.insert("a".to_string(), 3), None);
    assert_eq!(m.insert("9".to_string(), 4), None);
    assert_eq!(m.insert("0".to_string(), 5), None);
    assert_eq!(m.insert("01".to_string(), 6), None);
    assert_eq!(m.insert("b".to_string(), 7), Some(1));
    assert_eq!(m.insert("9".to_string(), 8), Some(4));
    assert_eq!(m.len(), 6);
    let keys: Vec<String> = (0..m.len()).map(|i| m.entry(i).0.clone()).collect();
    assert_eq!(keys, vec!["0", "9", "10", "b", "a", "01"]);
    let vals: Vec<u8> = (0..m.len()).map(|i| *m.entry(i).1).collect();
    assert_eq!(vals, vec![5, 8, 2, 7, 3, 6]);
}

#[test]
fn graphicolexical_order() {
    let a = GraphicolexicalString::new("9".to_string());
    let b = GraphicolexicalString::new("10".to_string());
    let c = GraphicolexicalString::new("11".to_string());
    assert_eq!(a.compare(&b), Ordering::Less);
    assert_eq!(c.compare(&b), Ordering::Greater);
    assert_eq!(b.compare(&GraphicolexicalString::new("10".to_string())), Ordering::Equal);
    assert_eq!(c.into_string(), "11");
}

#[test]
fn signing_form_is_canonical() {
    let a = json::from_slice_ordered(br#"{"x":{"2":null,"1":[]},"3":true}"#).unwrap();
    let b = json::from_slice_ordered(br#"{"3":true,"x":{"1":[],"2":null}}"#).unwrap();
    let ea = json::to_vec_ordered(&a, false, &vec![]);
    assert_eq!(ea, json::to_vec_ordered(&b, false, &vec![]));
    assert_eq!(
        String::from_utf8(ea).unwrap(),
        "{\n  \"3\": true,\n  \"x\": {\n    \"1\": [],\n    \"2\": null\n  }\n}"
    );
    let plain = a.to_value();
    assert_eq!(ValueOrdered::from_value(&plain), a);
}

#[test]
fn float_validity() {
    assert!(LegacyF64::from_bits(0.0f64.to_bits()).is_some());
    assert!(LegacyF64::from_bits((-1.1f64).to_bits()).is_some());
    assert!(LegacyF64::from_bits((-0.0f64).to_bits()).is_none());
    assert!(LegacyF64::from_bits(f64::INFINITY.to_bits()).is_none());
    assert!(LegacyF64::from_bits(f64::NEG_INFINITY.to_bits()).is_none());
    assert!(LegacyF64::from_bits(f64::NAN.to_bits()).is_none());
    assert!(LegacyF64::is_valid(f64::MAX.to_bits()));
    let neg = LegacyF64::from_bits((-2.0f64).to_bits()).unwrap();
    let zero = LegacyF64::from_bits(0.0f64.to_bits()).unwrap();
    let small = LegacyF64::from_bits(1e-300f64.to_bits()).unwrap();
    assert_eq!(neg.compare(&zero), std::cmp::Ordering::Less);
    assert_eq!(small.compare(&zero), std::cmp::Ordering::Greater);
    assert_eq!(small.compare(&small), std::cmp::Ordering::Equal);
    assert_eq!(neg.to_bits(), (-2.0f64).to_bits());
}

#[test]
fn integer_ranges() {
    assert!(is_u64_valid(9007199254740992));
    assert!(!is_u64_valid(9007199254740993));
    assert!(is_i64_valid(-9007199254740992));
    assert!(!is_i64_valid(i64::MIN));
    assert!(!is_i64_valid(9007199254740993));
}

#[test]
fn object_access_state_has_key() {
    let entries: Vec<(String, Value)> = vec![("a".to_string(), Value::Null)];
    assert!(entries.has_key(&"a".to_string()));
    assert!(!entries.has_key(&"b".to_string()));
}

#[test]
fn natural_string_check() {
    assert!(!is_nat_str("0"));
    assert!(!is_nat_str("01"));
    assert!(!is_nat_str(""));
    assert!(!is_nat_str("1a"));
    assert!(is_nat_str("10"));
    assert!(is_nat_str("9"));
}

#[test]
fn long_exponents() {
    assert_eq!(json::from_slice(b"1e5000000000"), Err(DecodeJsonError::InvalidNumber));
    assert_eq!(json::from_slice(b"1e-5000000000").unwrap(), float(0.0));
    assert_eq!(json::from_slice(b"1e000000000002").unwrap(), float(100.0));
    assert_eq!(json::from_slice(b"-2.5E+0000000001").unwrap(), float(-25.0));
    assert_eq!(json::from_slice(b"1e999999999"), Err(DecodeJsonError::InvalidNumber));
}

#[test]
fn encoder_preconditions_are_checkable() {
    let dup = Value::Object(vec![("a".to_string(), Value::Null), ("a".to_string(), Value::Null)]);
    assert!(!is_well_formed(&dup));
    assert!(is_well_formed(&sample()));
    assert!(json::numbers_cover_value(&sample(), &numbers_of(&[-1.5, 100.0])));
    assert!(!json::numbers_cover_value(&sample(), &numbers_of(&[-1.5])));
    assert!(!json::numbers_cover_value(&float(1.0), &vec![(1.0f64.to_bits(), " 1".to_string())]));
    assert!(json::is_number_token(b"-1.5e+7"));
    assert!(!json::is_number_token(b"1."));
}

#[test]
fn binary_partial_decoding() {
    let (v, rest) = cbor::from_slice_partial(&[0x61, 0x61, 0xf6, 0xf5]).unwrap();
    assert_eq!(v, Value::String("a".to_string()));
    assert_eq!(rest, &[0xf6, 0xf5]);
    assert_eq!(cbor::from_slice_partial(&[0xf9]), Err(DecodeCborError::ForbiddenType));
}
