use bittorrent_starter_rust::digits::push_decimal;
use bittorrent_starter_rust::error::Error;
use bittorrent_starter_rust::order::{bytes_equal, bytes_less};
use bittorrent_starter_rust::text::{decimal_string, percent_encode, push_decimal_text};
use bittorrent_starter_rust::wire::append_bytes;

#[test]
fn writes_numerals() {
    for n in [0u64, 7, 9, 10, 11, 99, 100, 6881, 92063, u64::MAX] {
        assert_eq!(decimal_string(n), n.to_string());
        let mut out = b"<".to_vec();
        push_decimal(&mut out, n);
        assert_eq!(out, format!("<{}", n).into_bytes());
        let mut text = String::from(">");
        push_decimal_text(&mut text, n);
        assert_eq!(text, format!(">{}", n));
    }
    assert_eq!(decimal_string(18446744073709551615), "18446744073709551615");
}

#[test]
fn escapes_bytes_with_percent_signs() {
    assert_eq!(percent_encode(&[]), "");
    assert_eq!(percent_encode(&[0]), "%00");
    assert_eq!(percent_encode(&[0xab, 0xcd, 0x0f, 0xf0]), "%ab%cd%0f%f0");
    assert_eq!(percent_encode(b"a b"), "%61%20%62");
    let all: Vec<u8> = (0..=255).collect();
    let text = percent_encode(&all);
    assert_eq!(text.len(), 768);
    let mut expected = String::new();
    for byte in &all {
        expected.push_str(&format!("%{:02x}", byte));
    }
    assert_eq!(text, expected);
}

#[test]
fn orders_byte_strings() {
    let ordered: Vec<&[u8]> = vec![b"", b"\x00", b"\x00\x00", b"a", b"a\x00", b"ab", b"b", b"\xff"];
    for (i, a) in ordered.iter().enumerate() {
        for (j, b) in ordered.iter().enumerate() {
            assert_eq!(bytes_less(a, b), i < j);
            assert_eq!(bytes_less(a, b), a < b);
            assert_eq!(bytes_equal(a, b), i == j);
        }
    }
}

#[test]
fn appends_bytes() {
    let mut out = vec![1u8, 2];
    append_bytes(&mut out, &[3, 4, 5]);
    append_bytes(&mut out, &[]);
    assert_eq!(out, vec![1, 2, 3, 4, 5]);
}

#[test]
fn errors_are_told_apart() {
    let all = [
        Error::MalformedBencode,
        Error::MetainfoInvalid,
        Error::TrackerError,
        Error::HandshakeFailed,
        Error::PeerProtocolError,
        Error::PieceHashMismatch,
        Error::IoError,
    ];
    for (i, a) in all.iter().enumerate() {
        for (j, b) in all.iter().enumerate() {
            assert_eq!(a == b, i == j);
        }
    }
    assert_eq!(format!("{:?}", Error::IoError), "IoError");
}
