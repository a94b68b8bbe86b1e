use bittorrent_starter_rust::bencode::{decode_bencoded_value, BencodeValue};
use bittorrent_starter_rust::dictionary::{get_entry, insert_entry};
use bittorrent_starter_rust::error::Error;
use bittorrent_starter_rust::json::Json;
use bittorrent_starter_rust::utils::decode;

fn bytes(text: &str) -> BencodeValue {
    BencodeValue::ByteString(text.as_bytes().to_vec())
}

fn same(a: &BencodeValue, b: &BencodeValue) -> bool {
    match (a, b) {
        (BencodeValue::ByteString(x), BencodeValue::ByteString(y)) => x == y,
        (BencodeValue::Integer(x), BencodeValue::Integer(y)) => x == y,
        (BencodeValue::List(x), BencodeValue::List(y)) => {
            x.len() == y.len() && x.iter().zip(y.iter()).all(|(p, q)| same(p, q))
        }
        (BencodeValue::Dictionary(x), BencodeValue::Dictionary(y)) => {
            x.len() == y.len()
                && x.iter()
                    .zip(y.iter())
                    .all(|(p, q)| p.0 == q.0 && same(&p.1, &q.1))
        }
        _ => false,
    }
}

fn same_json(a: &Json, b: &Json) -> bool {
    match (a, b) {
        (Json::String(x), Json::String(y)) => x == y,
        (Json::Number(x), Json::Number(y)) => x == y,
        (Json::Array(x), Json::Array(y)) => {
            x.len() == y.len() && x.iter().zip(y.iter()).all(|(p, q)| same_json(p, q))
        }
        (Json::Object(x), Json::Object(y)) => {
            x.len() == y.len()
                && x.iter()
                    .zip(y.iter())
                    .all(|(p, q)| p.0 == q.0 && same_json(&p.1, &q.1))
        }
        _ => false,
    }
}

fn read(input: &[u8]) -> BencodeValue {
    decode_bencoded_value(input, 0).unwrap().0
}

fn fails(input: &[u8]) -> bool {
    matches!(
        decode_bencoded_value(input, 0),
        Err(Error::MalformedBencode)
    )
}

fn sample() -> BencodeValue {
    BencodeValue::Dictionary(vec![
        (b"".to_vec(), BencodeValue::Integer(0)),
        (
            b"a".to_vec(),
            BencodeValue::List(vec![
                BencodeValue::Integer(-1),
                bytes(""),
                BencodeValue::List(vec![]),
                BencodeValue::Dictionary(vec![]),
            ]),
        ),
        (b"ab".to_vec(), BencodeValue::ByteString(vec![0, 255, 101, 58])),
        (b"b".to_vec(), BencodeValue::Integer(i64::MAX)),
        (
            b"c".to_vec(),
            BencodeValue::Dictionary(vec![(b"x".to_vec(), BencodeValue::Integer(i64::MIN))]),
        ),
    ])
}

#[test]
fn decodes_a_byte_string() {
    let (value, end) = decode_bencoded_value(b"5:hello", 0).unwrap();
    assert_eq!(end, 7);
    assert!(same(&value, &bytes("hello")));
    let json = decode(&"5:hello".to_string()).unwrap();
    assert!(same_json(&json, &Json::String("hello".to_string())));
}

#[test]
fn decodes_a_negative_integer() {
    let (value, end) = decode_bencoded_value(b"i-42e", 0).unwrap();
    assert_eq!(end, 5);
    assert!(same(&value, &BencodeValue::Integer(-42)));
    let json = decode(&"i-42e".to_string()).unwrap();
    assert!(same_json(&json, &Json::Number(-42)));
}

#[test]
fn decodes_a_list() {
    let (value, end) = decode_bencoded_value(b"l5:helloi52ee", 0).unwrap();
    assert_eq!(end, 13);
    assert!(same(
        &value,
        &BencodeValue::List(vec![bytes("hello"), BencodeValue::Integer(52)])
    ));
    let json = decode(&"l5:helloi52ee".to_string()).unwrap();
    assert!(same_json(
        &json,
        &Json::Array(vec![Json::String("hello".to_string()), Json::Number(52)])
    ));
}

#[test]
fn decodes_a_dictionary() {
    let (value, end) = decode_bencoded_value(b"d3:foo3:bar5:helloi52ee", 0).unwrap();
    assert_eq!(end, 23);
    assert!(same(
        &value,
        &BencodeValue::Dictionary(vec![
            (b"foo".to_vec(), bytes("bar")),
            (b"hello".to_vec(), BencodeValue::Integer(52)),
        ])
    ));
    let json = decode(&"d3:foo3:bar5:helloi52ee".to_string()).unwrap();
    assert!(same_json(
        &json,
        &Json::Object(vec![
            ("foo".to_string(), Json::String("bar".to_string())),
            ("hello".to_string(), Json::Number(52)),
        ])
    ));
}

#[test]
fn decodes_from_a_position_and_stops_behind_the_value() {
    let (value, end) = decode_bencoded_value(b"xxi7e3:abc", 2).unwrap();
    assert_eq!(end, 5);
    assert!(same(&value, &BencodeValue::Integer(7)));
    let (value, end) = decode_bencoded_value(b"xxi7e3:abc", 5).unwrap();
    assert_eq!(end, 10);
    assert!(same(&value, &bytes("abc")));
}

#[test]
fn decodes_each_kind_by_its_own_function() {
    let (value, end) = BencodeValue::from_bencoded_string(b"0:", 0).unwrap();
    assert_eq!(end, 2);
    assert!(same(&value, &bytes("")));
    let (value, end) = BencodeValue::from_bencoded_integer(b"i0e", 0).unwrap();
    assert_eq!(end, 3);
    assert!(same(&value, &BencodeValue::Integer(0)));
    let (value, end) = BencodeValue::from_bencoded_list(b"le", 0).unwrap();
    assert_eq!(end, 2);
    assert!(same(&value, &BencodeValue::List(vec![])));
    let (value, end) = BencodeValue::from_bencoded_dictionary(b"de", 0).unwrap();
    assert_eq!(end, 2);
    assert!(same(&value, &BencodeValue::Dictionary(vec![])));
}

#[test]
fn each_kind_rejects_the_others() {
    assert!(matches!(
        BencodeValue::from_bencoded_string(b"i1e", 0),
        Err(Error::MalformedBencode)
    ));
    assert!(matches!(
        BencodeValue::from_bencoded_integer(b"1:a", 0),
        Err(Error::MalformedBencode)
    ));
    assert!(matches!(
        BencodeValue::from_bencoded_list(b"de", 0),
        Err(Error::MalformedBencode)
    ));
    assert!(matches!(
        BencodeValue::from_bencoded_dictionary(b"le", 0),
        Err(Error::MalformedBencode)
    ));
}

#[test]
fn rejects_a_missing_colon() {
    assert!(fails(b"5hello"));
    assert!(fails(b"5"));
}

#[test]
fn rejects_a_missing_end() {
    assert!(fails(b"i42"));
    assert!(fails(b"l5:hello"));
    assert!(fails(b"d3:foo3:bar"));
    assert!(fails(b"l"));
    assert!(fails(b"d"));
}

#[test]
fn rejects_a_length_that_is_no_number() {
    assert!(fails(b":abc"));
    assert!(fails(b"-1:a"));
    assert!(fails(b"1x:a"));
}

#[test]
fn rejects_numbers_that_overflow() {
    assert!(fails(b"i9223372036854775808e"));
    assert!(fails(b"i-9223372036854775809e"));
    assert!(fails(b"i99999999999999999999999999999999e"));
    assert!(fails(b"99999999999999999999999999999999:a"));
}

#[test]
fn accepts_the_largest_and_the_smallest_integer() {
    assert!(same(
        &read(b"i9223372036854775807e"),
        &BencodeValue::Integer(i64::MAX)
    ));
    assert!(same(
        &read(b"i-9223372036854775808e"),
        &BencodeValue::Integer(i64::MIN)
    ));
}

#[test]
fn rejects_a_key_that_is_no_byte_string() {
    assert!(fails(b"di1e3:fooe"));
    assert!(fails(b"dle3:fooe"));
    assert!(fails(b"d3:fooe"));
}

#[test]
fn rejects_input_that_ends_too_early() {
    assert!(fails(b""));
    assert!(fails(b"5:hel"));
    assert!(fails(b"i"));
    assert!(fails(b"i-"));
    assert!(fails(b"li1e"));
    assert!(matches!(
        decode_bencoded_value(b"i1e", 3),
        Err(Error::MalformedBencode)
    ));
    assert!(matches!(
        decode_bencoded_value(b"i1e", 100),
        Err(Error::MalformedBencode)
    ));
}

#[test]
fn rejects_what_starts_with_no_value() {
    assert!(fails(b"x"));
    assert!(fails(b"e"));
    assert!(fails(b" i1e"));
    assert!(fails(b"ie"));
    assert!(fails(b"i-e"));
    assert!(fails(b"i+5e"));
    assert!(fails(b"i1 e"));
    assert!(fails(b"i--1e"));
}

#[test]
fn reads_numerals_with_leading_zeros() {
    assert!(same(&read(b"i007e"), &BencodeValue::Integer(7)));
    assert!(same(&read(b"i-0e"), &BencodeValue::Integer(0)));
    assert!(same(&read(b"05:hello"), &bytes("hello")));
}

#[test]
fn keeps_the_entries_of_a_dictionary_in_the_order_of_their_keys() {
    let value = read(b"d1:b1:x2:ab1:z1:a1:y0:i1ee");
    assert!(same(
        &value,
        &BencodeValue::Dictionary(vec![
            (b"".to_vec(), BencodeValue::Integer(1)),
            (b"a".to_vec(), bytes("y")),
            (b"ab".to_vec(), bytes("z")),
            (b"b".to_vec(), bytes("x")),
        ])
    ));
    assert_eq!(value.to_bytes(), b"d0:i1e1:a1:y2:ab1:z1:b1:xe".to_vec());
}

#[test]
fn the_later_of_two_equal_keys_counts() {
    let value = read(b"d1:ai1e1:bi2e1:ai3ee");
    assert!(same(
        &value,
        &BencodeValue::Dictionary(vec![
            (b"a".to_vec(), BencodeValue::Integer(3)),
            (b"b".to_vec(), BencodeValue::Integer(2)),
        ])
    ));
}

#[test]
fn orders_keys_byte_by_byte() {
    let value = read(b"d2:\xff\x00i1e1:\xffi2e1:Zi3e1:ai4e2:Z\x00i5ee");
    match &value {
        BencodeValue::Dictionary(entries) => {
            let keys: Vec<Vec<u8>> = entries.iter().map(|e| e.0.clone()).collect();
            assert_eq!(
                keys,
                vec![
                    b"Z".to_vec(),
                    b"Z\x00".to_vec(),
                    b"a".to_vec(),
                    b"\xff".to_vec(),
                    b"\xff\x00".to_vec(),
                ]
            );
            for pair in keys.windows(2) {
                assert!(pair[0] < pair[1]);
            }
        }
        _ => panic!("not a dictionary"),
    }
}

#[test]
fn inserts_and_finds_entries() {
    let mut entries: Vec<(Vec<u8>, BencodeValue)> = Vec::new();
    insert_entry(&mut entries, b"m".to_vec(), BencodeValue::Integer(1));
    insert_entry(&mut entries, b"z".to_vec(), BencodeValue::Integer(2));
    insert_entry(&mut entries, b"a".to_vec(), BencodeValue::Integer(3));
    insert_entry(&mut entries, b"m".to_vec(), BencodeValue::Integer(4));
    let keys: Vec<Vec<u8>> = entries.iter().map(|e| e.0.clone()).collect();
    assert_eq!(keys, vec![b"a".to_vec(), b"m".to_vec(), b"z".to_vec()]);
    assert!(same(
        get_entry(&entries, b"m").unwrap(),
        &BencodeValue::Integer(4)
    ));
    assert!(same(
        get_entry(&entries, b"a").unwrap(),
        &BencodeValue::Integer(3)
    ));
    assert!(get_entry(&entries, b"b").is_none());
    assert!(get_entry(&entries, b"").is_none());
}

#[test]
fn encodes_each_kind() {
    assert_eq!(bytes("hello").to_bytes(), b"5:hello".to_vec());
    assert_eq!(bytes("").to_bytes(), b"0:".to_vec());
    assert_eq!(BencodeValue::Integer(0).to_bytes(), b"i0e".to_vec());
    assert_eq!(BencodeValue::Integer(-42).to_bytes(), b"i-42e".to_vec());
    assert_eq!(
        BencodeValue::Integer(i64::MIN).to_bytes(),
        b"i-9223372036854775808e".to_vec()
    );
    assert_eq!(
        BencodeValue::Integer(i64::MAX).to_bytes(),
        b"i9223372036854775807e".to_vec()
    );
    assert_eq!(
        BencodeValue::List(vec![bytes("hello"), BencodeValue::Integer(52)]).to_bytes(),
        b"l5:helloi52ee".to_vec()
    );
    assert_eq!(
        BencodeValue::Dictionary(vec![
            (b"foo".to_vec(), bytes("bar")),
            (b"hello".to_vec(), BencodeValue::Integer(52)),
        ])
        .to_bytes(),
        b"d3:foo3:bar5:helloi52ee".to_vec()
    );
    let long = vec![7u8; 1234];
    let mut expected = b"1234:".to_vec();
    expected.extend_from_slice(&long);
    assert_eq!(BencodeValue::ByteString(long).to_bytes(), expected);
}

#[test]
fn appends_to_what_is_there() {
    let mut out = b"abc".to_vec();
    BencodeValue::Integer(5).encode_into(&mut out);
    bytes("x").encode_into(&mut out);
    assert_eq!(out, b"abci5e1:x".to_vec());
}

#[test]
fn a_value_that_is_written_and_read_is_the_same() {
    let value = sample();
    let written = value.to_bytes();
    let (back, end) = decode_bencoded_value(&written, 0).unwrap();
    assert_eq!(end, written.len());
    assert!(same(&back, &value));
}

#[test]
fn canonical_bytes_that_are_read_and_written_are_the_same() {
    let inputs: Vec<&[u8]> = vec![
        b"5:hello",
        b"i-42e",
        b"i0e",
        b"le",
        b"de",
        b"l5:helloi52ee",
        b"d3:foo3:bar5:helloi52ee",
        b"d1:ad1:bl1:ci-7eee1:bi0ee",
        b"d0:0:1:\x00l0:ee",
    ];
    for input in inputs {
        let (value, end) = decode_bencoded_value(input, 0).unwrap();
        assert_eq!(end, input.len());
        assert_eq!(value.to_bytes(), input.to_vec());
    }
}

#[test]
fn bytes_that_are_not_canonical_are_written_in_canonical_form() {
    assert_eq!(read(b"i007e").to_bytes(), b"i7e".to_vec());
    assert_eq!(read(b"i-0e").to_bytes(), b"i0e".to_vec());
    assert_eq!(read(b"05:hello").to_bytes(), b"5:hello".to_vec());
    assert_eq!(read(b"d1:bi1e1:ai2ee").to_bytes(), b"d1:ai2e1:bi1ee".to_vec());
}

#[test]
fn writes_as_the_bencode_crate_does() {
    let mut inner = std::collections::HashMap::new();
    inner.insert(b"x".to_vec(), serde_bencode::value::Value::Int(i64::MIN));
    let mut top = std::collections::HashMap::new();
    top.insert(b"".to_vec(), serde_bencode::value::Value::Int(0));
    top.insert(
        b"a".to_vec(),
        serde_bencode::value::Value::List(vec![
            serde_bencode::value::Value::Int(-1),
            serde_bencode::value::Value::Bytes(vec![]),
            serde_bencode::value::Value::List(vec![]),
            serde_bencode::value::Value::Dict(std::collections::HashMap::new()),
        ]),
    );
    top.insert(
        b"ab".to_vec(),
        serde_bencode::value::Value::Bytes(vec![0, 255, 101, 58]),
    );
    top.insert(b"b".to_vec(), serde_bencode::value::Value::Int(i64::MAX));
    top.insert(b"c".to_vec(), serde_bencode::value::Value::Dict(inner));
    let expected = serde_bencode::to_bytes(&serde_bencode::value::Value::Dict(top)).unwrap();
    assert_eq!(sample().to_bytes(), expected);
}

#[test]
fn shows_bytes_that_are_no_text_as_numbers() {
    let json = BencodeValue::ByteString(vec![0xff, 0x00, 0x41])
        .into_json()
        .unwrap();
    assert!(same_json(
        &json,
        &Json::Array(vec![Json::Number(255), Json::Number(0), Json::Number(65)])
    ));
}

#[test]
fn shows_text_beyond_ascii() {
    let json = BencodeValue::ByteString("héllo ☃".as_bytes().to_vec())
        .into_json()
        .unwrap();
    assert!(same_json(&json, &Json::String("héllo ☃".to_string())));
}

#[test]
fn has_no_json_for_a_key_that_is_no_text() {
    let value = BencodeValue::List(vec![BencodeValue::Dictionary(vec![(
        vec![0xff],
        BencodeValue::Integer(1),
    )])]);
    assert!(value.into_json().is_none());
    assert!(decode(&"x".to_string()).is_none());
}

#[test]
fn shows_nested_values() {
    let json = read(b"d1:al1:bd1:ci1eeee").into_json().unwrap();
    assert!(same_json(
        &json,
        &Json::Object(vec![(
            "a".to_string(),
            Json::Array(vec![
                Json::String("b".to_string()),
                Json::Object(vec![("c".to_string(), Json::Number(1))]),
            ]),
        )])
    ));
}
