//! Asking the tracker: the URL of the request and the answer with its list of
//! peers.
use crate::bencode::{decode_bencoded_value, entries_view, lemma_view_dictionary, BencodeValue};
use crate::dictionary::get_entry;
use crate::digest::{hex_bytes, hex_decode, is_hex};
use crate::digits::{decimal, is_digit, lemma_decimal_length, lemma_decimal_shape};
use crate::error::Error;
use crate::grammar::{dict_get, parse_value, Bencode};
use crate::query::{extend_url, pairs_view, text_fits, url_with_query, MAX_TEXT};
use crate::text::{decimal_string, decimal_text, percent_encode, percent_encoded, push_decimal_text};
use crate::torrent::{bytes_of, key, TorrentFile, TorrentView};
use vstd::prelude::*;
use vstd::string::StringExecFns;
use vstd::utf8::{encode_utf8, is_ascii_chars, is_ascii_chars_encode_utf8};

verus! {

/// What a request to the tracker says.
pub struct Tracker {
    url: String,
    left: String,
    info_hash: String,
    peer_id: String,
    port: u16,
    uploaded: u64,
    downloaded: u64,
    compact: bool,
}

/// A request to the tracker as mathematics.
pub struct TrackerView {
    /// The announce URL.
    pub url: Seq<char>,
    /// The number of bytes that are still to be downloaded, as text.
    pub left: Seq<char>,
    /// The hash that names the torrent, ready for the query.
    pub info_hash: Seq<char>,
    pub peer_id: Seq<char>,
    pub port: nat,
    pub uploaded: nat,
    pub downloaded: nat,
    pub compact: bool,
}

impl View for Tracker {
    type V = TrackerView;

    closed spec fn view(&self) -> TrackerView {
        TrackerView {
            url: self.url@,
            left: self.left@,
            info_hash: self.info_hash@,
            peer_id: self.peer_id@,
            port: self.port as nat,
            uploaded: self.uploaded as nat,
            downloaded: self.downloaded as nat,
            compact: self.compact,
        }
    }
}

impl TrackerView {
    /// The URL before the form-encoded pairs are added: the announce URL and
    /// the hash, which is escaped already, as the first field of the query.
    pub open spec fn base(self) -> Seq<char> {
        self.url + "?info_hash="@ + self.info_hash
    }

    /// The pairs that are added in form encoding, in their order.
    pub open spec fn pairs(self) -> Seq<(Seq<char>, Seq<char>)> {
        seq![
            ("peer_id"@, self.peer_id),
            ("port"@, decimal_text(self.port)),
            ("uploaded"@, decimal_text(self.uploaded)),
            ("downloaded"@, decimal_text(self.downloaded)),
            ("left"@, self.left),
            (
                "compact"@,
                decimal_text(
                    if self.compact {
                        1
                    } else {
                        0
                    },
                ),
            ),
        ]
    }

    /// Whether no text of the request is longer than the URL parser takes.
    pub open spec fn fits(self) -> bool {
        text_fits(self.base()) && text_fits(self.peer_id) && text_fits(self.left)
    }

    /// The URL of the request, or `None` where the texts are too long or the
    /// announce URL is no URL.
    pub open spec fn request_url(self) -> Option<Seq<char>> {
        if self.fits() {
            url_with_query(self.base(), self.pairs())
        } else {
            None
        }
    }
}

/// The request that a client without anything downloaded sends for `torrent`:
/// the whole length is left, the hash is percent-encoded byte by byte, and
/// the client listens on port 6881 and asks for the compact peer list.
pub open spec fn request_of(torrent: TorrentView) -> TrackerView {
    TrackerView {
        url: torrent.announce,
        left: decimal_text(torrent.info.length),
        info_hash: percent_encoded(torrent.info.info_hash()),
        peer_id: "00112233445566778899"@,
        port: 6881,
        uploaded: 0,
        downloaded: 0,
        compact: true,
    }
}

/// The bytes that `text` stands for where it is hexadecimal text, and no
/// bytes where it is not.
pub open spec fn hex_or_empty(text: Seq<char>) -> Seq<u8> {
    if is_hex(encode_utf8(text)) {
        hex_bytes(encode_utf8(text))
    } else {
        Seq::empty()
    }
}

/// Turns a hash in hexadecimal text into the form that the query of the
/// tracker URL takes: the raw bytes, each as a percent sign and two
/// hexadecimal digits. Text that is not hexadecimal gives the empty text.
pub fn hash_encode(t: &str) -> (encoded: String)
    ensures
        encoded@ == percent_encoded(hex_or_empty(t@)),
{
    match hex_decode(t) {
        Some(bytes) => percent_encode(bytes.as_slice()),
        None => {
            let empty: Vec<u8> = Vec::new();
            percent_encode(empty.as_slice())
        },
    }
}

/// Whether `text` is short enough for the URL parser.
fn fits(text: &str) -> (yes: bool)
    ensures
        yes == text_fits(text@),
{
    text.as_bytes().len() <= MAX_TEXT
}

/// The numeral of `n`, which is short enough for the URL parser.
fn numeral(n: u64) -> (text: String)
    ensures
        text@ == decimal_text(n as nat),
        text_fits(text@),
{
    let text = decimal_string(n);
    proof {
        lemma_numeral_fits(n);
    }
    text
}

/// A numeral of a 64-bit number has at most 20 digits, each one byte.
proof fn lemma_numeral_fits(n: u64)
    ensures
        text_fits(decimal_text(n as nat)),
{
    let digits = decimal_text(n as nat);
    lemma_decimal_shape(n as nat);
    lemma_decimal_length(n as nat);
    assert(is_ascii_chars(digits)) by {
        assert forall|i: int| 0 <= i < digits.len() implies '\0' <= #[trigger] digits[i]
            <= '\u{7f}' by {
            assert(is_digit(decimal(n as nat)[i]));
        }
    }
    is_ascii_chars_encode_utf8(digits);
}

impl Tracker {
    /// A request with the given fields.
    pub fn new(
        url: String,
        left: String,
        info_hash: String,
        peer_id: String,
        port: u16,
        uploaded: u64,
        downloaded: u64,
        compact: bool,
    ) -> (tracker: Self)
        ensures
            tracker@ == (TrackerView {
                url: url@,
                left: left@,
                info_hash: info_hash@,
                peer_id: peer_id@,
                port: port as nat,
                uploaded: uploaded as nat,
                downloaded: downloaded as nat,
                compact,
            }),
    {
        Self { url, left, info_hash, peer_id, port, uploaded, downloaded, compact }
    }

    /// The URL of the request: the announce URL with the hash as the first
    /// field of its query, then `peer_id`, `port`, `uploaded`, `downloaded`,
    /// `left` and `compact` in form encoding.
    ///
    /// The call fails with `TrackerError` where the announce URL is no URL, or
    /// a text of the request has more than 16 MiB.
    pub fn build_url(&self) -> (res: Result<String, Error>)
        ensures
            match res {
                Ok(text) => self@.request_url() == Some(text@),
                Err(e) => e == Error::TrackerError && self@.request_url() is None,
            },
    {
        let mut base = self.url.clone();
        base.append("?info_hash=");
        base.append(self.info_hash.as_str());
        assert(base@ =~= self@.base());
        if !fits(base.as_str()) || !fits(self.peer_id.as_str()) || !fits(self.left.as_str()) {
            return Err(Error::TrackerError);
        }
        let compact: u64 = if self.compact {
            1
        } else {
            0
        };
        let mut pairs: Vec<(String, String)> = Vec::new();
        pairs.push((String::from_str("peer_id"), self.peer_id.clone()));
        pairs.push((String::from_str("port"), numeral(self.port as u64)));
        pairs.push((String::from_str("uploaded"), numeral(self.uploaded)));
        pairs.push((String::from_str("downloaded"), numeral(self.downloaded)));
        pairs.push((String::from_str("left"), self.left.clone()));
        pairs.push((String::from_str("compact"), numeral(compact)));
        proof {
            lemma_names_fit();
            assert(pairs_view(pairs@) =~= self@.pairs());
        }
        match extend_url(base.as_str(), &pairs) {
            Some(text) => Ok(text),
            None => Err(Error::TrackerError),
        }
    }
}

/// The names of the query fields are short.
proof fn lemma_names_fit()
    ensures
        text_fits("peer_id"@),
        text_fits("port"@),
        text_fits("uploaded"@),
        text_fits("downloaded"@),
        text_fits("left"@),
        text_fits("compact"@),
{
    reveal_strlit("peer_id");
    reveal_strlit("port");
    reveal_strlit("uploaded");
    reveal_strlit("downloaded");
    reveal_strlit("left");
    reveal_strlit("compact");
    is_ascii_chars_encode_utf8("peer_id"@);
    is_ascii_chars_encode_utf8("port"@);
    is_ascii_chars_encode_utf8("uploaded"@);
    is_ascii_chars_encode_utf8("downloaded"@);
    is_ascii_chars_encode_utf8("left"@);
    is_ascii_chars_encode_utf8("compact"@);
}

/// The request that is sent to the tracker of `torrent`.
pub fn request_for(torrent: &TorrentFile) -> (tracker: Tracker)
    ensures
        tracker@ == request_of(torrent@),
{
    let hash = torrent.info.hash_nohex();
    Tracker::new(
        torrent.announce.clone(),
        decimal_string(torrent.info.length),
        percent_encode(hash.as_slice()),
        String::from_str("00112233445566778899"),
        6881,
        0,
        0,
        true,
    )
}

/// The URL that the tracker of `torrent` is asked at.
///
/// The call fails with `TrackerError` where the announce URL of the metainfo
/// is no URL or has more than 16 MiB.
pub fn announce_url(torrent: &TorrentFile) -> (res: Result<String, Error>)
    ensures
        match res {
            Ok(text) => request_of(torrent@).request_url() == Some(text@),
            Err(e) => e == Error::TrackerError && request_of(torrent@).request_url() is None,
        },
{
    request_for(torrent).build_url()
}

/// A peer: an IPv4 address, as its four bytes, and a port.
#[derive(Clone, Copy, Debug)]
pub struct Peer {
    pub ip_addr: [u8; 4],
    pub port: u16,
}

/// What the tracker answers.
#[derive(Debug)]
pub struct TorrentResponse {
    /// The seconds to wait before the tracker is asked again.
    pub interval: u64,
    pub peers: Vec<Peer>,
    /// The number of peers that have the whole file.
    pub complete: u64,
    /// The number of peers that do not have the whole file yet.
    pub incomplete: u64,
    pub min_interval: u64,
}

/// A peer as mathematics.
pub struct PeerView {
    pub ip_addr: Seq<u8>,
    pub port: nat,
}

/// The answer of the tracker as mathematics.
pub struct ResponseView {
    pub interval: nat,
    pub peers: Seq<PeerView>,
    pub complete: nat,
    pub incomplete: nat,
    pub min_interval: nat,
}

impl View for Peer {
    type V = PeerView;

    open spec fn view(&self) -> PeerView {
        PeerView { ip_addr: self.ip_addr@, port: self.port as nat }
    }
}

/// The peers of a list as mathematics.
pub open spec fn peers_view(peers: Seq<Peer>) -> Seq<PeerView> {
    Seq::new(peers.len(), |i: int| peers[i]@)
}

impl View for TorrentResponse {
    type V = ResponseView;

    open spec fn view(&self) -> ResponseView {
        ResponseView {
            interval: self.interval as nat,
            peers: peers_view(self.peers@),
            complete: self.complete as nat,
            incomplete: self.incomplete as nat,
            min_interval: self.min_interval as nat,
        }
    }
}

/// The peer that record `i` of a compact peer list stands for: four bytes of
/// address, then the port, high byte first.
pub open spec fn peer_at(bytes: Seq<u8>, i: int) -> PeerView {
    PeerView {
        ip_addr: bytes.subrange(6 * i, 6 * i + 4),
        port: (bytes[6 * i + 4] * 256 + bytes[6 * i + 5]) as nat,
    }
}

/// The peers of a compact peer list: one for each six bytes.
pub open spec fn peers_of(bytes: Seq<u8>) -> Seq<PeerView> {
    Seq::new(bytes.len() / 6, |i: int| peer_at(bytes, i))
}

/// The number of a field that may be missing, which counts as zero, and has
/// to be an integer that is not negative otherwise.
pub open spec fn count_of(field: Option<Bencode>) -> Option<nat> {
    match field {
        None => Some(0),
        Some(Bencode::Integer(n)) => if n >= 0 {
            Some(n as nat)
        } else {
            None
        },
        Some(_) => None,
    }
}

/// What a decoded answer of the tracker says, or `None` where it is no
/// dictionary, has no `peers` byte string of six bytes for each peer, or one
/// of its numbers is no integer or negative.
pub open spec fn response_of(v: Bencode) -> Option<ResponseView> {
    match v {
        Bencode::Dictionary(entries) => {
            let peers = bytes_of(dict_get(entries, key("peers")));
            let interval = count_of(dict_get(entries, key("interval")));
            let complete = count_of(dict_get(entries, key("complete")));
            let incomplete = count_of(dict_get(entries, key("incomplete")));
            let min_interval = count_of(dict_get(entries, key("min interval")));
            if peers is Some && peers->0.len() % 6 == 0 && interval is Some && complete is Some
                && incomplete is Some && min_interval is Some {
                Some(
                    ResponseView {
                        interval: interval->0,
                        peers: peers_of(peers->0),
                        complete: complete->0,
                        incomplete: incomplete->0,
                        min_interval: min_interval->0,
                    },
                )
            } else {
                None
            }
        },
        _ => None,
    }
}

/// The peers that the body of a tracker answer lists, or `None` where the
/// body is no bencoded answer.
pub open spec fn peers_in(body: Seq<u8>) -> Option<Seq<PeerView>> {
    match parse_value(body, 0, false) {
        Some((v, _)) => match response_of(v) {
            Some(response) => Some(response.peers),
            None => None,
        },
        None => None,
    }
}

/// The text of a peer: its address in dotted decimals, a colon, its port.
pub open spec fn peer_text(peer: PeerView) -> Seq<char> {
    decimal_text(peer.ip_addr[0] as nat) + seq!['.'] + decimal_text(peer.ip_addr[1] as nat) + seq![
        '.',
    ] + decimal_text(peer.ip_addr[2] as nat) + seq!['.'] + decimal_text(peer.ip_addr[3] as nat)
        + seq![':'] + decimal_text(peer.port)
}

impl Peer {
    /// The peer as `address:port`, the address in dotted decimals.
    pub fn to_string(&self) -> (text: String)
        ensures
            text@ == peer_text(self@),
    {
        proof {
            reveal_strlit(".");
            reveal_strlit(":");
        }
        let mut text = String::new();
        push_decimal_text(&mut text, self.ip_addr[0] as u64);
        text.append(".");
        push_decimal_text(&mut text, self.ip_addr[1] as u64);
        text.append(".");
        push_decimal_text(&mut text, self.ip_addr[2] as u64);
        text.append(".");
        push_decimal_text(&mut text, self.ip_addr[3] as u64);
        text.append(":");
        push_decimal_text(&mut text, self.port as u64);
        assert(text@ =~= peer_text(self@));
        text
    }
}

/// The number that `entries` hold under `name`; zero where they hold nothing.
fn count_field(entries: &Vec<(Vec<u8>, BencodeValue)>, name: &str) -> (res: Option<u64>)
    ensures
        match res {
            Some(n) => count_of(dict_get(entries_view(entries@), key(name))) == Some(n as nat),
            None => count_of(dict_get(entries_view(entries@), key(name))) is None,
        },
{
    match get_entry(entries, name.as_bytes()) {
        None => Some(0),
        Some(BencodeValue::Integer(n)) => if *n >= 0 {
            Some(*n as u64)
        } else {
            None
        },
        Some(_) => None,
    }
}

/// Splits a compact peer list into its peers.
fn read_compact(bytes: &[u8]) -> (peers: Vec<Peer>)
    requires
        bytes.len() % 6 == 0,
    ensures
        peers_view(peers@) == peers_of(bytes@),
{
    let mut peers: Vec<Peer> = Vec::new();
    let count = bytes.len() / 6;
    let mut i: usize = 0;
    while i < count
        invariant
            i <= count,
            count == bytes.len() / 6,
            peers.len() == i,
            forall|j: int| 0 <= j < i ==> (#[trigger] peers[j])@ == peer_at(bytes@, j),
        decreases count - i,
    {
        let at = 6 * i;
        let ip_addr: [u8; 4] = [bytes[at], bytes[at + 1], bytes[at + 2], bytes[at + 3]];
        let port: u16 = bytes[at + 4] as u16 * 256 + bytes[at + 5] as u16;
        let peer = Peer { ip_addr, port };
        assert(peer.ip_addr@ =~= bytes@.subrange(6 * i, 6 * i + 4));
        peers.push(peer);
        i += 1;
    }
    assert(peers_view(peers@) =~= peers_of(bytes@));
    peers
}

/// Reads the answer of the tracker from its decoded body.
///
/// The answer has to be a dictionary with the compact peer list under
/// `peers`: six bytes for each peer, four of address and two of port, high
/// byte first. `interval`, `min interval`, `complete` and `incomplete` count
/// as zero where they are missing. The call fails with `TrackerError`, and
/// only then, where the value is no dictionary, `peers` is missing, no byte
/// string or not a whole number of records, or one of the numbers is no
/// integer or negative.
pub fn parse_response(bencode: BencodeValue) -> (res: Result<TorrentResponse, Error>)
    ensures
        match res {
            Ok(response) => response_of(bencode@) == Some(response@),
            Err(e) => e == Error::TrackerError && response_of(bencode@) is None,
        },
{
    match &bencode {
        BencodeValue::Dictionary(entries) => {
            proof {
                lemma_view_dictionary(*entries);
            }
            let interval = count_field(entries, "interval");
            let complete = count_field(entries, "complete");
            let incomplete = count_field(entries, "incomplete");
            let min_interval = count_field(entries, "min interval");
            let peers = match get_entry(entries, "peers".as_bytes()) {
                Some(BencodeValue::ByteString(bytes)) => {
                    if bytes.len() % 6 != 0 {
                        return Err(Error::TrackerError);
                    }
                    read_compact(bytes.as_slice())
                },
                _ => {
                    return Err(Error::TrackerError);
                },
            };
            match (interval, complete, incomplete, min_interval) {
                (Some(interval), Some(complete), Some(incomplete), Some(min_interval)) => Ok(
                    TorrentResponse { interval, peers, complete, incomplete, min_interval },
                ),
                _ => Err(Error::TrackerError),
            }
        },
        _ => Err(Error::TrackerError),
    }
}

/// The peers that the body of a tracker answer lists.
///
/// The call fails with `TrackerError`, and only then, where the body is no
/// bencode or no answer that `parse_response` accepts.
pub fn read_peers(body: &[u8]) -> (res: Result<Vec<Peer>, Error>)
    ensures
        match res {
            Ok(peers) => peers_in(body@) == Some(peers_view(peers@)),
            Err(e) => e == Error::TrackerError && peers_in(body@) is None,
        },
{
    match decode_bencoded_value(body, 0) {
        Err(_) => Err(Error::TrackerError),
        Ok((value, _)) => match parse_response(value) {
            Ok(response) => Ok(response.peers),
            Err(e) => Err(e),
        },
    }
}

} // verus!
