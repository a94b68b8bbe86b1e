use bittorrent_starter_rust::bencode::{decode_bencoded_value, BencodeValue};
use bittorrent_starter_rust::dictionary::{copy_entries, take_entry};
use bittorrent_starter_rust::error::Error;
use bittorrent_starter_rust::torrent::{parse_torrent_file, TorrentFile, TorrentFileInfo};
use bittorrent_starter_rust::tracker::{
    announce_url, hash_encode, parse_response, read_peers, request_for, Peer, Tracker,
};
use sha1::Digest;

fn info(length: u64, piece_length: u64, pieces: Vec<u8>) -> TorrentFileInfo {
    TorrentFileInfo {
        name: "sample.txt".to_string(),
        piece_length,
        pieces,
        length,
        other: Vec::new(),
    }
}

fn sample_info() -> TorrentFileInfo {
    let mut pieces = Vec::new();
    for i in 0..60u8 {
        pieces.push(i.wrapping_mul(7));
    }
    info(92063, 32768, pieces)
}

fn file_bytes(announce: &str, info: &TorrentFileInfo) -> Vec<u8> {
    let mut out = format!("d8:announce{}:{}4:info", announce.len(), announce).into_bytes();
    out.extend_from_slice(&info.to_bytes());
    out.push(b'e');
    let torrent = TorrentFile {
        announce: announce.to_string(),
        info: info.clone(),
    };
    assert_eq!(torrent.to_bytes(), out);
    out
}

fn digest(data: &[u8]) -> Vec<u8> {
    let mut hasher = sha1::Sha1::new();
    hasher.update(data);
    hasher.finalize().to_vec()
}

fn invalid(input: &[u8]) -> bool {
    matches!(parse_torrent_file(input), Err(Error::MetainfoInvalid))
}

#[test]
fn reads_a_metainfo() {
    let bytes = file_bytes("http://tracker.example/announce", &sample_info());
    let torrent = parse_torrent_file(&bytes).unwrap();
    assert_eq!(torrent.announce, "http://tracker.example/announce");
    assert_eq!(torrent.info.name, "sample.txt");
    assert_eq!(torrent.info.length, 92063);
    assert_eq!(torrent.info.piece_length, 32768);
    assert_eq!(torrent.info.pieces, sample_info().pieces);
    assert!(torrent.info.is_valid());
}

#[test]
fn reads_a_metainfo_with_more_fields_in_any_order() {
    let bytes = b"d4:infod6:pieces0:4:name1:n12:piece lengthi4e7:privatei1e6:lengthi9ee7:comment2:hi8:announce1:ue";
    let torrent = parse_torrent_file(bytes).unwrap();
    assert_eq!(torrent.announce, "u");
    assert_eq!(torrent.info.name, "n");
    assert_eq!(torrent.info.length, 9);
    assert_eq!(torrent.info.piece_length, 4);
    assert!(torrent.info.pieces.is_empty());
    assert_eq!(torrent.info.other.len(), 1);
    assert_eq!(torrent.info.other[0].0, b"private".to_vec());
    assert!(matches!(torrent.info.other[0].1, BencodeValue::Integer(1)));
    let whole = b"d6:lengthi9e4:name1:n12:piece lengthi4e6:pieces0:7:privatei1ee";
    assert_eq!(torrent.info.to_bytes(), whole.to_vec());
    assert_eq!(torrent.info.hash_nohex(), digest(whole));
    assert_eq!(torrent.info.hash(), hex::encode(digest(whole)));
    assert_ne!(
        torrent.info.hash_nohex(),
        digest(b"d6:lengthi9e4:name1:n12:piece lengthi4e6:pieces0:e")
    );
}

#[test]
fn the_info_hash_covers_every_entry_of_the_info_dictionary() {
    let private = parse_torrent_file(
        b"d8:announce1:u4:infod6:lengthi9e4:name1:n12:piece lengthi4e6:pieces0:7:privatei1eee",
    )
    .unwrap();
    let public = parse_torrent_file(
        b"d8:announce1:u4:infod6:lengthi9e4:name1:n12:piece lengthi4e6:pieces0:7:privatei0eee",
    )
    .unwrap();
    let plain = parse_torrent_file(
        b"d8:announce1:u4:infod6:lengthi9e4:name1:n12:piece lengthi4e6:pieces0:ee",
    )
    .unwrap();
    assert_ne!(private.info.hash(), public.info.hash());
    assert_ne!(private.info.hash(), plain.info.hash());
    assert_ne!(public.info.hash(), plain.info.hash());
    assert_eq!(
        public.info.hash_nohex(),
        digest(b"d6:lengthi9e4:name1:n12:piece lengthi4e6:pieces0:7:privatei0ee")
    );
    assert_eq!(
        plain.info.hash_nohex(),
        digest(b"d6:lengthi9e4:name1:n12:piece lengthi4e6:pieces0:e")
    );
}

#[test]
fn other_entries_stand_at_the_places_of_their_keys() {
    let bytes = b"d8:announce1:u4:infod1:ai1e5:filesle6:lengthi9e2:mmd1:xi2ee4:name1:n5:namesi3e12:piece lengthi4e6:pieces0:6:sourcei4e1:zi5eee";
    let torrent = parse_torrent_file(bytes).unwrap();
    let keys: Vec<Vec<u8>> = torrent.info.other.iter().map(|e| e.0.clone()).collect();
    assert_eq!(
        keys,
        vec![
            b"a".to_vec(),
            b"files".to_vec(),
            b"mm".to_vec(),
            b"names".to_vec(),
            b"source".to_vec(),
            b"z".to_vec(),
        ]
    );
    let whole = &bytes[20..bytes.len() - 1];
    assert_eq!(torrent.info.to_bytes(), whole.to_vec());
    assert_eq!(torrent.info.to_value().to_bytes(), whole.to_vec());
    assert_eq!(torrent.info.hash_nohex(), digest(whole));
    assert_eq!(torrent.to_bytes(), bytes.to_vec());
    let copy = torrent.info.clone();
    assert_eq!(copy.to_bytes(), whole.to_vec());
    assert_eq!(copy.name, "n");
    let again = parse_torrent_file(&torrent.to_bytes()).unwrap();
    assert_eq!(again.info.hash(), torrent.info.hash());
    assert_eq!(again.info.other.len(), 6);
}

#[test]
fn writes_a_size_above_the_largest_integer_as_that_integer() {
    let info = info(u64::MAX, 1 << 63, Vec::new());
    assert_eq!(
        info.to_bytes(),
        b"d6:lengthi9223372036854775807e4:name10:sample.txt12:piece lengthi9223372036854775807e6:pieces0:e"
            .to_vec()
    );
    let largest = info_largest();
    assert_eq!(
        largest.to_bytes(),
        b"d6:lengthi9223372036854775807e4:name10:sample.txt12:piece lengthi1e6:pieces0:e".to_vec()
    );
}

fn info_largest() -> TorrentFileInfo {
    info(i64::MAX as u64, 1, Vec::new())
}

#[test]
fn takes_entries_out_of_a_dictionary() {
    let (value, _) = decode_bencoded_value(b"d1:ai1e1:bl1:xe1:ci3ee", 0).unwrap();
    let mut entries = match value {
        BencodeValue::Dictionary(entries) => entries,
        _ => panic!("not a dictionary"),
    };
    let copy = copy_entries(&entries);
    assert!(take_entry(&mut entries, b"x").is_none());
    assert_eq!(entries.len(), 3);
    let taken = take_entry(&mut entries, b"b").unwrap();
    assert_eq!(taken.to_bytes(), b"l1:xe".to_vec());
    assert_eq!(taken.duplicate().to_bytes(), b"l1:xe".to_vec());
    let keys: Vec<Vec<u8>> = entries.iter().map(|e| e.0.clone()).collect();
    assert_eq!(keys, vec![b"a".to_vec(), b"c".to_vec()]);
    assert!(take_entry(&mut entries, b"b").is_none());
    assert!(matches!(take_entry(&mut entries, b"c"), Some(BencodeValue::Integer(3))));
    assert!(matches!(take_entry(&mut entries, b"a"), Some(BencodeValue::Integer(1))));
    assert!(entries.is_empty());
    assert_eq!(
        BencodeValue::Dictionary(copy).to_bytes(),
        b"d1:ai1e1:bl1:xe1:ci3ee".to_vec()
    );
    let mut twice = vec![
        (b"a".to_vec(), BencodeValue::Integer(1)),
        (b"a".to_vec(), BencodeValue::Integer(2)),
    ];
    assert!(matches!(take_entry(&mut twice, b"a"), Some(BencodeValue::Integer(2))));
    assert_eq!(twice.len(), 1);
    assert!(matches!(twice[0].1, BencodeValue::Integer(1)));
}

#[test]
fn a_field_of_its_own_counts_over_an_entry_with_its_key() {
    let mut info = sample_info();
    info.other = vec![
        (b"length".to_vec(), BencodeValue::Integer(1)),
        (b"zz".to_vec(), BencodeValue::Integer(2)),
    ];
    let written = info.to_bytes();
    let back = decode_bencoded_value(&written, 0).unwrap().0;
    match back {
        BencodeValue::Dictionary(entries) => {
            let keys: Vec<Vec<u8>> = entries.iter().map(|e| e.0.clone()).collect();
            assert_eq!(
                keys,
                vec![
                    b"length".to_vec(),
                    b"name".to_vec(),
                    b"piece length".to_vec(),
                    b"pieces".to_vec(),
                    b"zz".to_vec(),
                ]
            );
            assert!(matches!(entries[0].1, BencodeValue::Integer(92063)));
        }
        _ => panic!("not a dictionary"),
    }
}

#[test]
fn writes_the_info_in_canonical_form() {
    let written = info(12, 5, vec![1u8; 20]).to_bytes();
    let mut expected = b"d6:lengthi12e4:name10:sample.txt12:piece lengthi5e6:pieces20:".to_vec();
    expected.extend_from_slice(&[1u8; 20]);
    expected.push(b'e');
    assert_eq!(written, expected);
    let (value, end) = decode_bencoded_value(&written, 0).unwrap();
    assert_eq!(end, written.len());
    assert_eq!(value.to_bytes(), written);
    assert!(matches!(value, BencodeValue::Dictionary(_)));
}

#[test]
fn the_info_hash_is_the_digest_of_the_written_info() {
    let info = sample_info();
    let expected = digest(&info.to_bytes());
    assert_eq!(info.hash_nohex(), expected);
    assert_eq!(info.info_hash().to_vec(), expected);
    let text = info.hash();
    assert_eq!(text.len(), 40);
    assert_eq!(text, hex::encode(&expected));
    assert!(text
        .chars()
        .all(|c| c.is_ascii_digit() || ('a'..='f').contains(&c)));
}

#[test]
fn the_info_hash_of_a_known_info() {
    let info = TorrentFileInfo {
        name: "a".to_string(),
        piece_length: 1,
        pieces: Vec::new(),
        length: 1,
        other: Vec::new(),
    };
    assert_eq!(
        info.to_bytes(),
        b"d6:lengthi1e4:name1:a12:piece lengthi1e6:pieces0:e".to_vec()
    );
    assert_eq!(
        info.hash(),
        hex::encode(digest(
            b"d6:lengthi1e4:name1:a12:piece lengthi1e6:pieces0:e"
        ))
    );
    assert_ne!(info.hash(), hex::encode(info.to_bytes()));
}

#[test]
fn the_info_hash_stays_when_the_metainfo_is_written_and_read() {
    let source = sample_info();
    let bytes = file_bytes("http://tracker.example/announce", &source);
    let first = parse_torrent_file(&bytes).unwrap();
    let again = parse_torrent_file(&file_bytes(&first.announce, &first.info)).unwrap();
    assert_eq!(first.info.hash(), source.hash());
    assert_eq!(again.info.hash(), source.hash());
    assert_eq!(again.info.hash_nohex(), source.hash_nohex());
    assert_eq!(again.announce, first.announce);
}

#[test]
fn a_metainfo_that_is_written_and_read_is_the_same() {
    let torrent = TorrentFile {
        announce: "http://tracker.example:6969/announce?x=é".to_string(),
        info: sample_info(),
    };
    let back = parse_torrent_file(&torrent.to_bytes()).unwrap();
    assert_eq!(back.announce, torrent.announce);
    assert_eq!(back.info.name, torrent.info.name);
    assert_eq!(back.info.length, torrent.info.length);
    assert_eq!(back.info.piece_length, torrent.info.piece_length);
    assert_eq!(back.info.pieces, torrent.info.pieces);
    assert_eq!(back.info.hash(), torrent.info.hash());
    assert_eq!(back.to_bytes(), torrent.to_bytes());
}

#[test]
fn the_info_hash_does_not_depend_on_the_order_in_the_file() {
    let shuffled = b"d4:infod6:pieces0:4:name1:a12:piece lengthi1e6:lengthi1ee8:announce1:ue";
    let torrent = parse_torrent_file(shuffled).unwrap();
    assert_eq!(
        torrent.info.hash(),
        hex::encode(digest(
            b"d6:lengthi1e4:name1:a12:piece lengthi1e6:pieces0:e"
        ))
    );
}

#[test]
fn counts_and_sizes_pieces() {
    let info = sample_info();
    assert_eq!(info.piece_count(), 3);
    assert_eq!(info.piece_size(0), 32768);
    assert_eq!(info.piece_size(1), 32768);
    assert_eq!(info.piece_size(2), 26527);
    assert!(info.is_consistent());
}

#[test]
fn there_is_a_piece_for_each_digest() {
    for count in [0usize, 1, 2, 7] {
        let pieces = vec![0u8; 20 * count];
        let info = info(1 + 10 * count as u64, 10, pieces);
        assert_eq!(info.piece_count() * 20, info.pieces.len());
        assert_eq!(info.piece_count(), count);
    }
}

#[test]
fn the_sizes_of_the_pieces_add_up_to_the_length() {
    let cases: Vec<(u64, u64, usize)> = vec![
        (92063, 32768, 3),
        (10, 10, 1),
        (20, 10, 2),
        (21, 10, 3),
        (1, 16384, 1),
    ];
    for (length, piece_length, count) in cases {
        let info = info(length, piece_length, vec![0u8; 20 * count]);
        assert!(info.is_consistent());
        let mut sum = 0u64;
        for i in 0..info.piece_count() {
            sum += info.piece_size(i);
        }
        assert_eq!(sum, length);
    }
}

#[test]
fn the_last_piece_is_shorter_only_where_the_length_is_no_multiple() {
    let even = info(30, 10, vec![0u8; 60]);
    assert_eq!(even.piece_size(2), 10);
    let odd = info(25, 10, vec![0u8; 60]);
    assert_eq!(odd.piece_size(2), 5);
}

#[test]
fn tells_when_the_digests_do_not_match_the_length() {
    assert!(!info(30, 10, vec![0u8; 40]).is_consistent());
    assert!(!info(30, 10, vec![0u8; 80]).is_consistent());
    assert!(!info(30, 10, Vec::new()).is_consistent());
    assert!(info(30, 10, vec![0u8; 60]).is_consistent());
    assert!(!info(0, 10, vec![0u8; 20]).is_valid());
    assert!(!info(10, 0, vec![0u8; 20]).is_valid());
    assert!(!info(10, 10, vec![0u8; 19]).is_valid());
    assert!(!info(u64::MAX, 10, vec![0u8; 20]).is_valid());
}

#[test]
fn gives_the_digest_of_each_piece() {
    let info = sample_info();
    assert_eq!(info.piece_hash(0), info.pieces[0..20].to_vec());
    assert_eq!(info.piece_hash(1), info.pieces[20..40].to_vec());
    assert_eq!(info.piece_hash(2), info.pieces[40..60].to_vec());
    let hashes = info.hash_pieces();
    assert_eq!(hashes.len(), 3);
    assert_eq!(hashes[0], hex::encode(&info.pieces[0..20]));
    assert_eq!(hashes[2], hex::encode(&info.pieces[40..60]));
    assert_eq!(hashes[1].len(), 40);
}

#[test]
fn shows_the_digests_of_bytes_that_are_no_whole_digests() {
    let odd = info(1, 1, vec![0xab; 25]);
    let hashes = odd.hash_pieces();
    assert_eq!(hashes.len(), 2);
    assert_eq!(hashes[0], "ab".repeat(20));
    assert_eq!(hashes[1], "ab".repeat(5));
    assert!(info(1, 1, Vec::new()).hash_pieces().is_empty());
}

#[test]
fn checks_a_piece_against_its_digest() {
    let data = b"some bytes of a piece".to_vec();
    let other = b"other bytes".to_vec();
    let mut pieces = digest(&data);
    pieces.extend_from_slice(&digest(&other));
    let info = info(32, 21, pieces);
    assert_eq!(info.verify_piece(0, &data), Ok(()));
    assert_eq!(info.verify_piece(1, &other), Ok(()));
    assert_eq!(info.verify_piece(0, &other), Err(Error::PieceHashMismatch));
    assert_eq!(info.verify_piece(1, &data), Err(Error::PieceHashMismatch));
    assert_eq!(info.verify_piece(0, b""), Err(Error::PieceHashMismatch));
}

#[test]
fn rejects_a_file_that_is_no_bencode() {
    assert!(matches!(
        parse_torrent_file(b"not a torrent"),
        Err(Error::MalformedBencode)
    ));
    assert!(matches!(
        parse_torrent_file(b""),
        Err(Error::MalformedBencode)
    ));
    assert!(matches!(
        parse_torrent_file(b"d8:announce"),
        Err(Error::MalformedBencode)
    ));
}

#[test]
fn rejects_a_metainfo_without_a_field() {
    assert!(invalid(b"de"));
    assert!(invalid(b"i1e"));
    assert!(invalid(b"le"));
    assert!(invalid(
        b"d4:infod6:lengthi1e4:name1:a12:piece lengthi1e6:pieces0:ee"
    ));
    assert!(invalid(b"d8:announce1:ue"));
    assert!(invalid(
        b"d8:announce1:u4:infod4:name1:a12:piece lengthi1e6:pieces0:ee"
    ));
    assert!(invalid(
        b"d8:announce1:u4:infod6:lengthi1e12:piece lengthi1e6:pieces0:ee"
    ));
    assert!(invalid(
        b"d8:announce1:u4:infod6:lengthi1e4:name1:a6:pieces0:ee"
    ));
    assert!(invalid(
        b"d8:announce1:u4:infod6:lengthi1e4:name1:a12:piece lengthi1eee"
    ));
}

#[test]
fn rejects_a_metainfo_with_a_field_of_the_wrong_kind() {
    assert!(invalid(
        b"d8:announcei1e4:infod6:lengthi1e4:name1:a12:piece lengthi1e6:pieces0:ee"
    ));
    assert!(invalid(b"d8:announce1:u4:info1:xe"));
    assert!(invalid(
        b"d8:announce1:u4:infod6:length1:14:name1:a12:piece lengthi1e6:pieces0:ee"
    ));
    assert!(invalid(
        b"d8:announce1:u4:infod6:lengthi1e4:namei1e12:piece lengthi1e6:pieces0:ee"
    ));
    assert!(invalid(
        b"d8:announce1:u4:infod6:lengthi1e4:name1:a12:piece length1:16:pieces0:ee"
    ));
    assert!(invalid(
        b"d8:announce1:u4:infod6:lengthi1e4:name1:a12:piece lengthi1e6:piecesi0eee"
    ));
    assert!(invalid(
        b"d8:announce1:\xff4:infod6:lengthi1e4:name1:a12:piece lengthi1e6:pieces0:ee"
    ));
    assert!(invalid(
        b"d8:announce1:u4:infod6:lengthi1e4:name1:\xff12:piece lengthi1e6:pieces0:ee"
    ));
}

#[test]
fn rejects_sizes_that_are_not_above_zero() {
    assert!(invalid(
        b"d8:announce1:u4:infod6:lengthi0e4:name1:a12:piece lengthi1e6:pieces0:ee"
    ));
    assert!(invalid(
        b"d8:announce1:u4:infod6:lengthi-5e4:name1:a12:piece lengthi1e6:pieces0:ee"
    ));
    assert!(invalid(
        b"d8:announce1:u4:infod6:lengthi1e4:name1:a12:piece lengthi0e6:pieces0:ee"
    ));
    assert!(invalid(
        b"d8:announce1:u4:infod6:lengthi1e4:name1:a12:piece lengthi-1e6:pieces0:ee"
    ));
}

#[test]
fn rejects_digests_that_are_not_whole() {
    assert!(invalid(
        b"d8:announce1:u4:infod6:lengthi1e4:name1:a12:piece lengthi1e6:pieces3:abcee"
    ));
    assert!(invalid(
        b"d8:announce1:u4:infod6:lengthi1e4:name1:a12:piece lengthi1e6:pieces21:abcdefghijklmnopqrstuee"
    ));
    assert!(parse_torrent_file(
        b"d8:announce1:u4:infod6:lengthi1e4:name1:a12:piece lengthi1e6:pieces20:abcdefghijklmnopqrstee"
    )
    .is_ok());
}

#[test]
fn escapes_a_hash_byte_by_byte() {
    assert_eq!(hash_encode("abcd"), "%ab%cd");
    assert_eq!(hash_encode("ABCD"), "%ab%cd");
    assert_eq!(hash_encode("00ff7e20"), "%00%ff%7e%20");
    assert_eq!(hash_encode(""), "");
    assert_eq!(hash_encode("abc"), "");
    assert_eq!(hash_encode("zz"), "");
    assert_eq!(hash_encode("é0"), "");
    let hash = sample_info().hash();
    let escaped = hash_encode(&hash);
    assert_eq!(escaped.len(), 60);
    let mut expected = String::new();
    for byte in sample_info().hash_nohex() {
        expected.push_str(&format!("%{:02x}", byte));
    }
    assert_eq!(escaped, expected);
}

#[test]
fn builds_the_url_of_a_request() {
    let tracker = Tracker::new(
        "http://tracker.example/announce".to_string(),
        "92063".to_string(),
        "%ab%cd".to_string(),
        "00112233445566778899".to_string(),
        6881,
        0,
        0,
        true,
    );
    assert_eq!(
        tracker.build_url().unwrap(),
        "http://tracker.example/announce?info_hash=%ab%cd&peer_id=00112233445566778899&port=6881&uploaded=0&downloaded=0&left=92063&compact=1"
    );
}

#[test]
fn form_encodes_the_fields_of_a_request() {
    let tracker = Tracker::new(
        "http://tracker.example:8080/a/b".to_string(),
        "1 2&3".to_string(),
        "%00".to_string(),
        "id=é".to_string(),
        65535,
        18446744073709551615,
        7,
        false,
    );
    assert_eq!(
        tracker.build_url().unwrap(),
        "http://tracker.example:8080/a/b?info_hash=%00&peer_id=id%3D%C3%A9&port=65535&uploaded=18446744073709551615&downloaded=7&left=1+2%263&compact=0"
    );
}

#[test]
fn fails_where_the_announce_url_is_no_url() {
    let tracker = Tracker::new(
        "not a url".to_string(),
        "1".to_string(),
        "%ab".to_string(),
        "00112233445566778899".to_string(),
        6881,
        0,
        0,
        true,
    );
    assert_eq!(tracker.build_url(), Err(Error::TrackerError));
    let empty = Tracker::new(
        String::new(),
        "1".to_string(),
        "%ab".to_string(),
        "id".to_string(),
        1,
        0,
        0,
        true,
    );
    assert_eq!(empty.build_url(), Err(Error::TrackerError));
}

#[test]
fn fails_where_a_text_of_the_request_is_too_long() {
    let long = "a".repeat(0x100_0001);
    let tracker = Tracker::new(
        "http://tracker.example/announce".to_string(),
        long,
        "%ab".to_string(),
        "id".to_string(),
        1,
        0,
        0,
        true,
    );
    assert_eq!(tracker.build_url(), Err(Error::TrackerError));
}

#[test]
fn asks_the_tracker_of_a_torrent() {
    let torrent = TorrentFile {
        announce: "http://tracker.example/announce".to_string(),
        info: sample_info(),
    };
    let mut escaped = String::new();
    for byte in torrent.info.hash_nohex() {
        escaped.push_str(&format!("%{:02x}", byte));
    }
    let expected = format!(
        "http://tracker.example/announce?info_hash={}&peer_id=00112233445566778899&port=6881&uploaded=0&downloaded=0&left=92063&compact=1",
        escaped
    );
    assert_eq!(announce_url(&torrent).unwrap(), expected);
    assert_eq!(request_for(&torrent).build_url().unwrap(), expected);
    assert!(!expected.contains(&torrent.info.hash()));
    let bad = TorrentFile {
        announce: "tracker".to_string(),
        info: sample_info(),
    };
    assert_eq!(announce_url(&bad), Err(Error::TrackerError));
}

#[test]
fn reads_compact_peers() {
    let mut body = b"d8:intervali1800e5:peers12:".to_vec();
    body.extend_from_slice(&[
        0x0A, 0x00, 0x00, 0x01, 0x1A, 0xE1, 0x0A, 0x00, 0x00, 0x02, 0x1A, 0xE2,
    ]);
    body.push(b'e');
    let peers = read_peers(&body).unwrap();
    assert_eq!(peers.len(), 2);
    assert_eq!(peers[0].ip_addr, [10, 0, 0, 1]);
    assert_eq!(peers[0].port, 6881);
    assert_eq!(peers[1].ip_addr, [10, 0, 0, 2]);
    assert_eq!(peers[1].port, 6882);
    assert_eq!(peers[0].to_string(), "10.0.0.1:6881");
    assert_eq!(peers[1].to_string(), "10.0.0.2:6882");
}

#[test]
fn shows_a_peer() {
    let peer = Peer {
        ip_addr: [255, 0, 100, 9],
        port: 65535,
    };
    assert_eq!(peer.to_string(), "255.0.100.9:65535");
    let zero = Peer {
        ip_addr: [0, 0, 0, 0],
        port: 0,
    };
    assert_eq!(zero.to_string(), "0.0.0.0:0");
}

#[test]
fn reads_the_answer_of_the_tracker() {
    let mut body = b"d8:completei5e10:incompletei3e8:intervali1800e12:min intervali900e5:peers6:"
        .to_vec();
    body.extend_from_slice(&[192, 168, 1, 20, 0x00, 0x50]);
    body.push(b'e');
    let (value, _) = decode_bencoded_value(&body, 0).unwrap();
    let response = parse_response(value).unwrap();
    assert_eq!(response.interval, 1800);
    assert_eq!(response.min_interval, 900);
    assert_eq!(response.complete, 5);
    assert_eq!(response.incomplete, 3);
    assert_eq!(response.peers.len(), 1);
    assert_eq!(response.peers[0].ip_addr, [192, 168, 1, 20]);
    assert_eq!(response.peers[0].port, 80);
}

#[test]
fn counts_missing_numbers_as_zero() {
    let (value, _) = decode_bencoded_value(b"d5:peers0:e", 0).unwrap();
    let response = parse_response(value).unwrap();
    assert_eq!(response.interval, 0);
    assert_eq!(response.min_interval, 0);
    assert_eq!(response.complete, 0);
    assert_eq!(response.incomplete, 0);
    assert!(response.peers.is_empty());
}

#[test]
fn rejects_an_answer_that_lists_no_peers() {
    let bad: Vec<&[u8]> = vec![
        b"de",
        b"i1e",
        b"le",
        b"5:peers",
        b"d8:intervali1800ee",
        b"d5:peersi1ee",
        b"d5:peers5:abcdee",
        b"d5:peers7:abcdefge",
        b"d8:interval1:x5:peers0:e",
        b"d8:intervali-1e5:peers0:e",
        b"d8:completei-1e5:peers0:e",
        b"d10:incompletele5:peers0:e",
        b"d12:min intervali-9e5:peers0:e",
        b"d14:failure reason4:nopee",
    ];
    for body in bad {
        let (value, _) = decode_bencoded_value(body, 0).unwrap();
        assert!(matches!(parse_response(value), Err(Error::TrackerError)));
        assert!(matches!(read_peers(body), Err(Error::TrackerError)));
    }
    assert!(matches!(read_peers(b"nonsense"), Err(Error::TrackerError)));
    assert!(matches!(read_peers(b""), Err(Error::TrackerError)));
}
