//! The metainfo of a torrent: what a `.torrent` file holds, the hash that
//! names the torrent, and the pieces that its file is cut into.
use crate::bencode::{
    decode_bencoded_value, entries_view, lemma_view_dictionary, write_bytes, BencodeValue,
};
use crate::dictionary::{
    copy_entries, get_entry, insert_entry, lemma_dict_insert_wf, lemma_get_inserted,
    lemma_get_place, lemma_insert_removed, lemma_remove_inserted, lemma_remove_keeps,
    take_entry, values_wf,
};
use crate::digest::{hex_encode, hex_lower, sha1, sha1_digest};
use crate::error::Error;
use crate::grammar::{
    dict_get, dict_insert, dict_remove, encode, encode_bytes, encode_entries, key_less,
    key_less_from, keys_increase, parse_value, Bencode, DICTIONARY, END,
};
use crate::roundtrip::lemma_parse_encoded;
pub use crate::tracker::{hash_encode, parse_response, Peer, TorrentResponse, Tracker};
use crate::text::utf8_text;
use vstd::prelude::*;
use vstd::slice::slice_to_vec;
use vstd::string::StringExecFns;
use vstd::utf8::{
    decode_utf8, decode_utf8_encode_utf8, encode_utf8, encode_utf8_decode_utf8,
    encode_utf8_valid_utf8, is_ascii_chars_encode_utf8, valid_utf8,
};

verus! {

/// The bytes of a dictionary key that is written as text.
pub open spec fn key(text: &str) -> Seq<u8> {
    encode_utf8(text@)
}

/// What the `info` dictionary of a single-file torrent says: the four fields
/// that every such dictionary has, and whatever else it holds.
pub struct TorrentFileInfo {
    /// The name that is suggested for the file.
    pub name: String,
    /// The size of every piece but the last, in bytes.
    pub piece_length: u64,
    /// The SHA-1 digests of the pieces, 20 bytes each, one after the other.
    pub pieces: Vec<u8>,
    /// The size of the file, in bytes.
    pub length: u64,
    /// The entries of the dictionary under other keys than these four, in the
    /// order of their keys. They count for the hash that names the torrent.
    /// An entry here under one of the four keys is passed over: the field
    /// counts.
    pub other: Vec<(Vec<u8>, BencodeValue)>,
}

impl Clone for TorrentFileInfo {
    fn clone(&self) -> (copy: Self)
        ensures
            copy@ == self@,
    {
        TorrentFileInfo {
            name: self.name.clone(),
            piece_length: self.piece_length,
            pieces: slice_to_vec(self.pieces.as_slice()),
            length: self.length,
            other: copy_entries(&self.other),
        }
    }
}

/// What a `.torrent` file says: where the tracker is, and the file.
#[derive(Clone)]
pub struct TorrentFile {
    /// The URL of the tracker.
    pub announce: String,
    pub info: TorrentFileInfo,
}

/// The `info` dictionary as mathematics.
pub struct InfoView {
    pub name: Seq<char>,
    pub piece_length: nat,
    pub pieces: Seq<u8>,
    pub length: nat,
    pub other: Seq<(Seq<u8>, Bencode)>,
}

/// The metainfo as mathematics.
pub struct TorrentView {
    pub announce: Seq<char>,
    pub info: InfoView,
}

impl View for TorrentFileInfo {
    type V = InfoView;

    open spec fn view(&self) -> InfoView {
        InfoView {
            name: self.name@,
            piece_length: self.piece_length as nat,
            pieces: self.pieces@,
            length: self.length as nat,
            other: entries_view(self.other@),
        }
    }
}

impl View for TorrentFile {
    type V = TorrentView;

    open spec fn view(&self) -> TorrentView {
        TorrentView { announce: self.announce@, info: self.info@ }
    }
}

/// A size as a bencoded integer. A size above the largest bencoded integer,
/// which no metainfo can give, counts as that largest integer.
pub open spec fn size_integer(n: nat) -> int {
    if n <= i64::MAX {
        n as int
    } else {
        i64::MAX as int
    }
}

/// The entries of `entries` under other keys than the four that every info
/// dictionary has.
pub open spec fn others_of(entries: Seq<(Seq<u8>, Bencode)>) -> Seq<(Seq<u8>, Bencode)> {
    dict_remove(
        dict_remove(
            dict_remove(dict_remove(entries, key("pieces")), key("piece length")),
            key("name"),
        ),
        key("length"),
    )
}

impl InfoView {
    /// The entries of the info dictionary: the other entries with `length`,
    /// `name`, `piece length` and `pieces` put among them, each at the place
    /// of its key and in the place of an entry that has its key.
    pub open spec fn entries(self) -> Seq<(Seq<u8>, Bencode)> {
        dict_insert(
            dict_insert(
                dict_insert(
                    dict_insert(
                        self.other,
                        key("length"),
                        Bencode::Integer(size_integer(self.length)),
                    ),
                    key("name"),
                    Bencode::ByteString(encode_utf8(self.name)),
                ),
                key("piece length"),
                Bencode::Integer(size_integer(self.piece_length)),
            ),
            key("pieces"),
            Bencode::ByteString(self.pieces),
        )
    }

    /// The whole info dictionary, as it is written and hashed.
    pub open spec fn tree(self) -> Bencode {
        Bencode::Dictionary(self.entries())
    }

    /// Whether the other entries are as a decoded dictionary has them: in the
    /// order of their keys, well formed, and none under one of the four keys
    /// that have fields of their own.
    pub open spec fn ordered(self) -> bool {
        &&& keys_increase(self.other)
        &&& values_wf(self.other)
        &&& dict_get(self.other, key("length")) is None
        &&& dict_get(self.other, key("name")) is None
        &&& dict_get(self.other, key("piece length")) is None
        &&& dict_get(self.other, key("pieces")) is None
    }

    /// The hash that names the torrent: the SHA-1 digest of the info as it is
    /// written in canonical form.
    pub open spec fn info_hash(self) -> Seq<u8> {
        sha1_digest(encode(self.tree()))
    }

    /// What a metainfo has to meet: a file and pieces that are not empty and
    /// whose sizes fit a bencoded integer, and whole digests.
    pub open spec fn valid(self) -> bool {
        &&& 0 < self.length <= i64::MAX
        &&& 0 < self.piece_length <= i64::MAX
        &&& self.pieces.len() % 20 == 0
    }

    /// The number of pieces: one for each digest.
    pub open spec fn piece_count(self) -> nat {
        self.pieces.len() / 20
    }

    /// The digest of piece `i`.
    pub open spec fn piece_hash(self, i: int) -> Seq<u8> {
        self.pieces.subrange(20 * i, 20 * i + 20)
    }

    /// The size of piece `i`: the piece length, but for the last piece what
    /// is left of the file.
    pub open spec fn piece_size(self, i: int) -> int {
        if i + 1 < self.piece_count() {
            self.piece_length as int
        } else {
            self.length - (self.piece_count() - 1) * self.piece_length
        }
    }

    /// Whether the digests are as many as the file has pieces: the last piece
    /// is not empty and not longer than the others.
    pub open spec fn consistent(self) -> bool {
        &&& self.piece_count() >= 1
        &&& 0 < self.piece_size(self.piece_count() - 1) <= self.piece_length
    }
}

impl TorrentView {
    /// The dictionary that the metainfo is written as.
    pub open spec fn tree(self) -> Bencode {
        Bencode::Dictionary(
            seq![
                (key("announce"), Bencode::ByteString(encode_utf8(self.announce))),
                (key("info"), self.info.tree()),
            ],
        )
    }
}

/// A size as a bencoded integer.
fn integer_of(n: u64) -> (value: BencodeValue)
    ensures
        value@ == Bencode::Integer(size_integer(n as nat)),
{
    if n > 0x7fff_ffff_ffff_ffff {
        BencodeValue::Integer(i64::MAX)
    } else {
        BencodeValue::Integer(n as i64)
    }
}

impl TorrentFileInfo {
    /// The whole info dictionary as a bencoded value: the four fields put
    /// among the other entries, each at the place of its key.
    pub fn to_value(&self) -> (value: BencodeValue)
        ensures
            value@ == self@.tree(),
    {
        let mut entries = copy_entries(&self.other);
        insert_entry(&mut entries, slice_to_vec("length".as_bytes()), integer_of(self.length));
        insert_entry(
            &mut entries,
            slice_to_vec("name".as_bytes()),
            BencodeValue::ByteString(slice_to_vec(self.name.as_str().as_bytes())),
        );
        insert_entry(
            &mut entries,
            slice_to_vec("piece length".as_bytes()),
            integer_of(self.piece_length),
        );
        insert_entry(
            &mut entries,
            slice_to_vec("pieces".as_bytes()),
            BencodeValue::ByteString(slice_to_vec(self.pieces.as_slice())),
        );
        proof {
            lemma_view_dictionary(entries);
        }
        BencodeValue::Dictionary(entries)
    }

    /// The info as it is written in canonical form.
    pub fn to_bytes(&self) -> (bytes: Vec<u8>)
        ensures
            bytes@ == encode(self@.tree()),
    {
        self.to_value().to_bytes()
    }

    /// Appends the info as it is written in canonical form to `out`.
    pub fn encode_into(&self, out: &mut Vec<u8>)
        ensures
            final(out)@ == old(out)@ + encode(self@.tree()),
    {
        self.to_value().encode_into(out);
    }

    /// The hash that names the torrent, as 40 lower-case hexadecimal digits.
    pub fn hash(&self) -> (text: String)
        ensures
            text@ == hex_lower(self@.info_hash()),
    {
        let bytes = self.to_bytes();
        let digest = sha1(bytes.as_slice());
        hex_encode(digest.as_slice())
    }

    /// The hash that names the torrent, as its 20 bytes.
    pub fn hash_nohex(&self) -> (hash: Vec<u8>)
        ensures
            hash@ == self@.info_hash(),
            hash.len() == 20,
    {
        let digest = self.info_hash();
        slice_to_vec(digest.as_slice())
    }

    /// The hash that names the torrent: the SHA-1 digest of the info as it is
    /// written in canonical form.
    pub fn info_hash(&self) -> (hash: [u8; 20])
        ensures
            hash@ == self@.info_hash(),
    {
        let bytes = self.to_bytes();
        sha1(bytes.as_slice())
    }

    /// Whether the info is what a metainfo has to be: sizes above zero that
    /// fit a bencoded integer, and whole digests.
    pub fn is_valid(&self) -> (yes: bool)
        ensures
            yes == self@.valid(),
    {
        0 < self.length && self.length <= 0x7fff_ffff_ffff_ffff && 0 < self.piece_length
            && self.piece_length <= 0x7fff_ffff_ffff_ffff && self.pieces.len() % 20 == 0
    }
}

impl TorrentFile {
    /// The metainfo as it is written in canonical form: a dictionary with the
    /// tracker URL under `announce` and the info under `info`.
    ///
    /// Where the info is valid and ordered, reading these bytes gives the
    /// metainfo back.
    pub fn to_bytes(&self) -> (bytes: Vec<u8>)
        ensures
            bytes@ == encode(self@.tree()),
            self@.info.valid() && self@.info.ordered() ==> parse_metainfo(bytes@) == Ok::<
                TorrentView,
                Error,
            >(self@),
    {
        let mut out: Vec<u8> = Vec::new();
        out.push(DICTIONARY);
        write_bytes(&mut out, "announce".as_bytes());
        write_bytes(&mut out, self.announce.as_str().as_bytes());
        write_bytes(&mut out, "info".as_bytes());
        let ghost front = seq![DICTIONARY] + encode_bytes(key("announce")) + encode_bytes(
            encode_utf8(self.announce@),
        ) + encode_bytes(key("info"));
        assert(out@ =~= front);
        self.info.encode_into(&mut out);
        out.push(END);
        proof {
            let entries = self@.tree()->Dictionary_0;
            let e0 = encode_entries(entries, 0);
            let e1 = encode_entries(entries, 1);
            let e2 = encode_entries(entries, 2);
            reveal_with_fuel(encode, 2);
            assert(e0 =~= Seq::<u8>::empty());
            assert(e1 == e0 + encode_bytes(entries[0].0) + encode(entries[0].1));
            assert(e2 == e1 + encode_bytes(entries[1].0) + encode(entries[1].1));
            assert(encode(self@.tree()) == seq![DICTIONARY] + e2 + seq![END]);
            assert(out@ =~= encode(self@.tree()));
            if self@.info.valid() && self@.info.ordered() {
                lemma_info_hash_stable(self@);
            }
        }
        out
    }
}

/// The text of a field that has to be a byte string of valid UTF-8.
pub open spec fn text_of(field: Option<Bencode>) -> Option<Seq<char>> {
    match field {
        Some(Bencode::ByteString(bytes)) => if valid_utf8(bytes) {
            Some(decode_utf8(bytes))
        } else {
            None
        },
        _ => None,
    }
}

/// The bytes of a field that has to be a byte string.
pub open spec fn bytes_of(field: Option<Bencode>) -> Option<Seq<u8>> {
    match field {
        Some(Bencode::ByteString(bytes)) => Some(bytes),
        _ => None,
    }
}

/// The number of a field that has to be an integer above zero.
pub open spec fn positive_of(field: Option<Bencode>) -> Option<nat> {
    match field {
        Some(Bencode::Integer(n)) => if n > 0 {
            Some(n as nat)
        } else {
            None
        },
        _ => None,
    }
}

/// The entries of a field that has to be a dictionary.
pub open spec fn entries_of(field: Option<Bencode>) -> Option<Seq<(Seq<u8>, Bencode)>> {
    match field {
        Some(Bencode::Dictionary(entries)) => Some(entries),
        _ => None,
    }
}

/// What the entries of an `info` dictionary say, or `None` where a field is
/// missing or of the wrong kind, a size is not above zero, or the digests are
/// not 20 bytes each. Entries under other keys than the four are kept as they
/// are.
pub open spec fn info_of(entries: Seq<(Seq<u8>, Bencode)>) -> Option<InfoView> {
    let length = positive_of(dict_get(entries, key("length")));
    let name = text_of(dict_get(entries, key("name")));
    let piece_length = positive_of(dict_get(entries, key("piece length")));
    let pieces = bytes_of(dict_get(entries, key("pieces")));
    if length is Some && name is Some && piece_length is Some && pieces is Some
        && pieces->0.len() % 20 == 0 {
        Some(
            InfoView {
                name: name->0,
                piece_length: piece_length->0,
                pieces: pieces->0,
                length: length->0,
                other: others_of(entries),
            },
        )
    } else {
        None
    }
}

/// What a decoded `.torrent` file says, or `None` where it is no dictionary
/// with a tracker URL and a valid `info` dictionary.
pub open spec fn metainfo_of(v: Bencode) -> Option<TorrentView> {
    match v {
        Bencode::Dictionary(top) => {
            let announce = text_of(dict_get(top, key("announce")));
            let info = entries_of(dict_get(top, key("info")));
            if announce is Some && info is Some && info_of(info->0) is Some {
                Some(TorrentView { announce: announce->0, info: info_of(info->0)->0 })
            } else {
                None
            }
        },
        _ => None,
    }
}

/// The value that the bytes of a `.torrent` file hold under `info`, as it was
/// decoded.
pub open spec fn info_entry(s: Seq<u8>) -> Option<Bencode> {
    match parse_value(s, 0, false) {
        Some((Bencode::Dictionary(top), _)) => dict_get(top, key("info")),
        _ => None,
    }
}

/// What the bytes of a `.torrent` file say: `MalformedBencode` where they do
/// not start with a bencoded value, `MetainfoInvalid` where that value is no
/// metainfo.
pub open spec fn parse_metainfo(s: Seq<u8>) -> Result<TorrentView, Error> {
    match parse_value(s, 0, false) {
        None => Err(Error::MalformedBencode),
        Some((v, _)) => match metainfo_of(v) {
            Some(torrent) => Ok(torrent),
            None => Err(Error::MetainfoInvalid),
        },
    }
}

/// The text that `entries` hold under `name`.
fn text_field(entries: &Vec<(Vec<u8>, BencodeValue)>, name: &str) -> (res: Option<String>)
    ensures
        match res {
            Some(text) => text_of(dict_get(entries_view(entries@), key(name))) == Some(text@),
            None => text_of(dict_get(entries_view(entries@), key(name))) is None,
        },
{
    match get_entry(entries, name.as_bytes()) {
        Some(BencodeValue::ByteString(bytes)) => match utf8_text(bytes.as_slice()) {
            Some(text) => Some(String::from_str(text)),
            None => None,
        },
        _ => None,
    }
}

/// Reads the `info` dictionary from its entries: takes the four fields out
/// and keeps the rest.
fn read_info(entries: Vec<(Vec<u8>, BencodeValue)>) -> (res: Option<TorrentFileInfo>)
    requires
        keys_increase(entries_view(entries@)),
        values_wf(entries_view(entries@)),
    ensures
        match res {
            Some(info) => info_of(entries_view(entries@)) == Some(info@) && info@.valid()
                && info@.ordered(),
            None => info_of(entries_view(entries@)) is None,
        },
{
    let mut other = entries;
    let ghost all = entries_view(other@);
    proof {
        lemma_keys_differ();
        lemma_remove_keeps(all, key("pieces"));
    }
    let pieces = take_entry(&mut other, "pieces".as_bytes());
    let ghost first = entries_view(other@);
    proof {
        lemma_remove_keeps(first, key("piece length"));
    }
    let piece_length = take_entry(&mut other, "piece length".as_bytes());
    let ghost second = entries_view(other@);
    proof {
        lemma_remove_keeps(second, key("name"));
    }
    let name = take_entry(&mut other, "name".as_bytes());
    let ghost third = entries_view(other@);
    proof {
        lemma_remove_keeps(third, key("length"));
    }
    let length = take_entry(&mut other, "length".as_bytes());
    proof {
        assert(entries_view(other@) == others_of(all));
        assert(dict_get(first, key("piece length")) == dict_get(all, key("piece length")));
        assert(dict_get(second, key("name")) == dict_get(first, key("name")));
        assert(dict_get(first, key("name")) == dict_get(all, key("name")));
        assert(dict_get(third, key("length")) == dict_get(second, key("length")));
        assert(dict_get(second, key("length")) == dict_get(first, key("length")));
        assert(dict_get(first, key("length")) == dict_get(all, key("length")));
        let last = entries_view(other@);
        assert(dict_get(last, key("name")) == dict_get(third, key("name")));
        assert(dict_get(last, key("piece length")) == dict_get(third, key("piece length")));
        assert(dict_get(third, key("piece length")) == dict_get(second, key("piece length")));
        assert(dict_get(last, key("pieces")) == dict_get(third, key("pieces")));
        assert(dict_get(third, key("pieces")) == dict_get(second, key("pieces")));
        assert(dict_get(second, key("pieces")) == dict_get(first, key("pieces")));
    }
    match (length, name, piece_length, pieces) {
        (
            Some(BencodeValue::Integer(length)),
            Some(BencodeValue::ByteString(name)),
            Some(BencodeValue::Integer(piece_length)),
            Some(BencodeValue::ByteString(pieces)),
        ) => {
            if length <= 0 || piece_length <= 0 || pieces.len() % 20 != 0 {
                return None;
            }
            match utf8_text(name.as_slice()) {
                Some(text) => Some(
                    TorrentFileInfo {
                        name: String::from_str(text),
                        piece_length: piece_length as u64,
                        pieces,
                        length: length as u64,
                        other,
                    },
                ),
                None => None,
            }
        },
        _ => None,
    }
}

/// Reads a metainfo from the bytes of a `.torrent` file.
///
/// The bytes have to start with a bencoded dictionary that holds the tracker
/// URL under `announce` and, under `info`, a dictionary with `name`, `length`,
/// `piece length` and `pieces`. What else the `info` dictionary holds is kept,
/// so that the hash of the metainfo is the hash of the whole dictionary. The
/// call fails with `MalformedBencode` where the bytes are no bencode, and with
/// `MetainfoInvalid` where a field is missing or of the wrong kind, a text is
/// not UTF-8, `length` or `piece length` is not above zero, or `pieces` is not
/// a whole number of 20-byte digests.
pub fn parse_torrent_file(input: &[u8]) -> (res: Result<TorrentFile, Error>)
    ensures
        match res {
            Ok(torrent) => parse_metainfo(input@) == Ok::<TorrentView, Error>(torrent@)
                && torrent@.info.valid() && torrent@.info.ordered() && info_entry(input@)
                == Some(torrent@.info.tree()),
            Err(e) => parse_metainfo(input@) == Err::<TorrentView, Error>(e),
        },
{
    let value = match decode_bencoded_value(input, 0) {
        Ok((value, _)) => value,
        Err(e) => {
            return Err(e);
        },
    };
    match value {
        BencodeValue::Dictionary(top) => {
            let mut top = top;
            let ghost all = entries_view(top@);
            proof {
                lemma_view_dictionary(top);
            }
            let announce = text_field(&top, "announce");
            let info = take_entry(&mut top, "info".as_bytes());
            match (announce, info) {
                (Some(announce), Some(BencodeValue::Dictionary(entries))) => {
                    proof {
                        let i = lemma_get_place(all, key("info"));
                        assert(all[i].1.wf());
                        lemma_view_dictionary(entries);
                    }
                    let ghost whole = entries_view(entries@);
                    match read_info(entries) {
                        Some(info) => {
                            proof {
                                lemma_info_whole(whole);
                            }
                            Ok(TorrentFile { announce, info })
                        },
                        None => Err(Error::MetainfoInvalid),
                    }
                },
                _ => Err(Error::MetainfoInvalid),
            }
        },
        _ => Err(Error::MetainfoInvalid),
    }
}

/// The bytes of the keys of a metainfo.
pub proof fn lemma_keys()
    ensures
        key("announce") == seq![97u8, 110, 110, 111, 117, 110, 99, 101],
        key("info") == seq![105u8, 110, 102, 111],
        key("length") == seq![108u8, 101, 110, 103, 116, 104],
        key("name") == seq![110u8, 97, 109, 101],
        key("piece length") == seq![112u8, 105, 101, 99, 101, 32, 108, 101, 110, 103, 116, 104],
        key("pieces") == seq![112u8, 105, 101, 99, 101, 115],
{
    reveal_strlit("announce");
    reveal_strlit("info");
    reveal_strlit("length");
    reveal_strlit("name");
    reveal_strlit("piece length");
    reveal_strlit("pieces");
    is_ascii_chars_encode_utf8("announce"@);
    is_ascii_chars_encode_utf8("info"@);
    is_ascii_chars_encode_utf8("length"@);
    is_ascii_chars_encode_utf8("name"@);
    is_ascii_chars_encode_utf8("piece length"@);
    is_ascii_chars_encode_utf8("pieces"@);
    assert(key("announce") =~= seq![97u8, 110, 110, 111, 117, 110, 99, 101]);
    assert(key("info") =~= seq![105u8, 110, 102, 111]);
    assert(key("length") =~= seq![108u8, 101, 110, 103, 116, 104]);
    assert(key("name") =~= seq![110u8, 97, 109, 101]);
    assert(key("piece length") =~= seq![
        112u8,
        105,
        101,
        99,
        101,
        32,
        108,
        101,
        110,
        103,
        116,
        104,
    ]);
    assert(key("pieces") =~= seq![112u8, 105, 101, 99, 101, 115]);
}

/// In a metainfo `announce` comes before `info`.
pub proof fn lemma_key_order_of_fields()
    ensures
        key_less(key("announce"), key("info")),
{
    lemma_keys();
    reveal_with_fuel(key_less_from, 2);
}

/// The four keys that every info dictionary has are four different keys.
pub proof fn lemma_keys_differ()
    ensures
        key("length") != key("name"),
        key("length") != key("piece length"),
        key("length") != key("pieces"),
        key("name") != key("piece length"),
        key("name") != key("pieces"),
        key("piece length") != key("pieces"),
{
    lemma_keys();
    assert(key("length")[0] == 108 && key("name")[0] == 110 && key("pieces")[0] == 112);
    assert(key("piece length")[0] == 112 && key("piece length")[5] == 32);
    assert(key("pieces")[5] == 115);
}

/// The info dictionary of a valid, ordered info is well formed, and read back
/// from its entries it is the same info.
pub proof fn lemma_info_tree(info: InfoView)
    requires
        info.valid(),
        info.ordered(),
    ensures
        info.tree().wf(),
        info_of(info.entries()) == Some(info),
{
    let length = Bencode::Integer(size_integer(info.length));
    let name = Bencode::ByteString(encode_utf8(info.name));
    let piece_length = Bencode::Integer(size_integer(info.piece_length));
    let pieces = Bencode::ByteString(info.pieces);
    let first = dict_insert(info.other, key("length"), length);
    let second = dict_insert(first, key("name"), name);
    let third = dict_insert(second, key("piece length"), piece_length);
    let all = dict_insert(third, key("pieces"), pieces);
    assert(all == info.entries());
    lemma_keys_differ();
    lemma_dict_insert_wf(info.other, key("length"), length);
    lemma_dict_insert_wf(first, key("name"), name);
    lemma_dict_insert_wf(second, key("piece length"), piece_length);
    lemma_dict_insert_wf(third, key("pieces"), pieces);
    lemma_get_inserted(info.other, key("length"), length, key("name"));
    lemma_get_inserted(info.other, key("length"), length, key("piece length"));
    lemma_get_inserted(info.other, key("length"), length, key("pieces"));
    lemma_get_inserted(first, key("name"), name, key("length"));
    lemma_get_inserted(first, key("name"), name, key("piece length"));
    lemma_get_inserted(first, key("name"), name, key("pieces"));
    lemma_get_inserted(second, key("piece length"), piece_length, key("length"));
    lemma_get_inserted(second, key("piece length"), piece_length, key("name"));
    lemma_get_inserted(second, key("piece length"), piece_length, key("pieces"));
    lemma_get_inserted(third, key("pieces"), pieces, key("length"));
    lemma_get_inserted(third, key("pieces"), pieces, key("name"));
    lemma_get_inserted(third, key("pieces"), pieces, key("piece length"));
    lemma_remove_inserted(third, key("pieces"), pieces);
    lemma_remove_inserted(second, key("piece length"), piece_length);
    lemma_remove_inserted(first, key("name"), name);
    lemma_remove_inserted(info.other, key("length"), length);
    assert(others_of(all) == info.other);
    encode_utf8_valid_utf8(info.name);
    encode_utf8_decode_utf8(info.name);
}

/// The hash of a metainfo is taken over the whole info dictionary: the info
/// that is read from the entries of a well-formed dictionary is written as
/// that very dictionary, with every entry that it holds.
pub proof fn lemma_info_whole(entries: Seq<(Seq<u8>, Bencode)>)
    requires
        Bencode::Dictionary(entries).wf(),
        info_of(entries) is Some,
    ensures
        info_of(entries)->0.tree() == Bencode::Dictionary(entries),
        info_of(entries)->0.info_hash() == sha1_digest(encode(Bencode::Dictionary(entries))),
        info_of(entries)->0.valid(),
        info_of(entries)->0.ordered(),
{
    let info = info_of(entries)->0;
    let first = dict_remove(entries, key("pieces"));
    let second = dict_remove(first, key("piece length"));
    let third = dict_remove(second, key("name"));
    let last = dict_remove(third, key("length"));
    assert(last == info.other);
    lemma_keys_differ();
    lemma_remove_keeps(entries, key("pieces"));
    lemma_remove_keeps(first, key("piece length"));
    lemma_remove_keeps(second, key("name"));
    lemma_remove_keeps(third, key("length"));
    assert(dict_get(first, key("piece length")) == dict_get(entries, key("piece length")));
    assert(dict_get(second, key("name")) == dict_get(first, key("name")));
    assert(dict_get(first, key("name")) == dict_get(entries, key("name")));
    assert(dict_get(third, key("length")) == dict_get(second, key("length")));
    assert(dict_get(second, key("length")) == dict_get(first, key("length")));
    assert(dict_get(first, key("length")) == dict_get(entries, key("length")));
    assert(dict_get(last, key("name")) == dict_get(third, key("name")));
    assert(dict_get(last, key("piece length")) == dict_get(third, key("piece length")));
    assert(dict_get(third, key("piece length")) == dict_get(second, key("piece length")));
    assert(dict_get(last, key("pieces")) == dict_get(third, key("pieces")));
    assert(dict_get(third, key("pieces")) == dict_get(second, key("pieces")));
    assert(dict_get(second, key("pieces")) == dict_get(first, key("pieces")));
    let i = lemma_get_place(entries, key("length"));
    assert(entries[i].1.wf());
    let j = lemma_get_place(entries, key("piece length"));
    assert(entries[j].1.wf());
    decode_utf8_encode_utf8(dict_get(entries, key("name"))->0->ByteString_0);
    lemma_insert_removed(third, key("length"));
    lemma_insert_removed(second, key("name"));
    lemma_insert_removed(first, key("piece length"));
    lemma_insert_removed(entries, key("pieces"));
    assert(info.entries() == entries);
}

/// The tree of a metainfo with a valid, ordered info is well formed and says
/// what the metainfo says.
pub proof fn lemma_metainfo_tree(torrent: TorrentView)
    requires
        torrent.info.valid(),
        torrent.info.ordered(),
    ensures
        torrent.tree().wf(),
        metainfo_of(torrent.tree()) == Some(torrent),
{
    let top = torrent.tree()->Dictionary_0;
    lemma_keys();
    lemma_key_order_of_fields();
    lemma_info_tree(torrent.info);
    assert(keys_increase(top));
    assert(torrent.tree().wf()) by {
        reveal_with_fuel(Bencode::wf, 2);
        assert(top[0].1.wf());
        assert(top[1].1.wf());
    }
    reveal_with_fuel(dict_get, 3);
    assert(top.drop_last().last() == top[0]);
    assert(dict_get(top, key("info")) == Some(top[1].1));
    assert(dict_get(top, key("announce")) == Some(top[0].1));
    encode_utf8_valid_utf8(torrent.announce);
    encode_utf8_decode_utf8(torrent.announce);
}

/// A metainfo that is written and read again is the same metainfo, so the
/// hash that names the torrent is the same before and after.
pub proof fn lemma_info_hash_stable(torrent: TorrentView)
    requires
        torrent.info.valid(),
        torrent.info.ordered(),
    ensures
        parse_metainfo(encode(torrent.tree())) == Ok::<TorrentView, Error>(torrent),
        parse_metainfo(encode(torrent.tree()))->Ok_0.info.info_hash() == torrent.info.info_hash(),
{
    let s = encode(torrent.tree());
    lemma_metainfo_tree(torrent);
    assert(s.subrange(0, s.len() as int) =~= s);
    lemma_parse_encoded(torrent.tree(), s, 0, false);
}

} // verus!
