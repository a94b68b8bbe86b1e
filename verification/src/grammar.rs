//! The bencode format as mathematics: the tree of a value, the bytes that a
//! value is written as, and the value that a run of bytes is read as.
use crate::digits::{decimal, digits_end, digits_value, is_digit, ZERO};
use vstd::prelude::*;

verus! {

/// The minus sign of a negative integer.
pub const MINUS: u8 = 45;

/// The colon between the length of a byte string and its bytes.
pub const COLON: u8 = 58;

/// The letter `d`, which starts a dictionary.
pub const DICTIONARY: u8 = 100;

/// The letter `e`, which ends an integer, a list and a dictionary.
pub const END: u8 = 101;

/// The letter `i`, which starts an integer.
pub const INTEGER: u8 = 105;

/// The letter `l`, which starts a list.
pub const LIST: u8 = 108;

/// A bencoded value as a mathematical tree.
///
/// A dictionary is the sequence of its entries; in a well-formed value the
/// keys of that sequence strictly increase.
pub enum Bencode {
    ByteString(Seq<u8>),
    Integer(int),
    List(Seq<Bencode>),
    Dictionary(Seq<(Seq<u8>, Bencode)>),
}

/// Whether `a` comes before `b` in the lexicographic order of their bytes,
/// given that the two agree on their first `i` bytes.
pub open spec fn key_less_from(a: Seq<u8>, b: Seq<u8>, i: int) -> bool
    decreases a.len() - i,
{
    if i >= b.len() {
        false
    } else if i >= a.len() {
        true
    } else if a[i] != b[i] {
        a[i] < b[i]
    } else {
        key_less_from(a, b, i + 1)
    }
}

/// Whether `a` comes strictly before `b` in the lexicographic order of their
/// bytes.
pub open spec fn key_less(a: Seq<u8>, b: Seq<u8>) -> bool {
    key_less_from(a, b, 0)
}

/// Whether the keys of `entries` strictly increase.
pub open spec fn keys_increase(entries: Seq<(Seq<u8>, Bencode)>) -> bool {
    forall|i: int, j: int|
        0 <= i < j < entries.len() ==> key_less(#[trigger] entries[i].0, #[trigger] entries[j].0)
}

/// The entries of a dictionary after `key` has been given `value`: an entry
/// with that key is replaced, a new key takes its place in the order.
pub open spec fn dict_insert(
    entries: Seq<(Seq<u8>, Bencode)>,
    key: Seq<u8>,
    value: Bencode,
) -> Seq<(Seq<u8>, Bencode)>
    decreases entries.len(),
{
    if entries.len() == 0 {
        seq![(key, value)]
    } else if key_less(entries.last().0, key) {
        entries.push((key, value))
    } else if entries.last().0 == key {
        entries.drop_last().push((key, value))
    } else {
        dict_insert(entries.drop_last(), key, value).push(entries.last())
    }
}

/// The value that `entries` holds for `key`, if it holds one.
pub open spec fn dict_get(entries: Seq<(Seq<u8>, Bencode)>, key: Seq<u8>) -> Option<Bencode>
    decreases entries.len(),
{
    if entries.len() == 0 {
        None
    } else if entries.last().0 == key {
        Some(entries.last().1)
    } else {
        dict_get(entries.drop_last(), key)
    }
}

/// The entries of a dictionary without the entry in which `dict_get` finds
/// the value of `key`: the last one with that key, which is the only one
/// where the keys increase.
pub open spec fn dict_remove(entries: Seq<(Seq<u8>, Bencode)>, key: Seq<u8>) -> Seq<
    (Seq<u8>, Bencode),
>
    decreases entries.len(),
{
    if entries.len() == 0 {
        entries
    } else if entries.last().0 == key {
        entries.drop_last()
    } else {
        dict_remove(entries.drop_last(), key).push(entries.last())
    }
}

impl Bencode {
    /// Whether the value can be held and written: every integer fits in 64
    /// bits and the keys of every dictionary strictly increase.
    pub open spec fn wf(self) -> bool
        decreases self,
    {
        match self {
            Bencode::ByteString(_) => true,
            Bencode::Integer(n) => i64::MIN <= n <= i64::MAX,
            Bencode::List(items) => forall|i: int|
                0 <= i < items.len() ==> (#[trigger] items[i]).wf(),
            Bencode::Dictionary(entries) => {
                &&& keys_increase(entries)
                &&& forall|i: int| 0 <= i < entries.len() ==> (#[trigger] entries[i]).1.wf()
            },
        }
    }
}

/// The numeral of an integer: a minus sign for a negative one, then the
/// numeral of its magnitude.
pub open spec fn signed_decimal(n: int) -> Seq<u8> {
    if n < 0 {
        seq![MINUS] + decimal((-n) as nat)
    } else {
        decimal(n as nat)
    }
}

/// The bytes that a byte string is written as: the numeral of its length, a
/// colon, and the bytes themselves.
pub open spec fn encode_bytes(bytes: Seq<u8>) -> Seq<u8> {
    decimal(bytes.len()) + seq![COLON] + bytes
}

/// The bytes that `v` is written as.
///
/// A byte string is its length, a colon and its bytes; an integer stands
/// between `i` and `e`; a list is `l`, its items and `e`; a dictionary is
/// `d`, each key followed by its value in the order of the entries, and `e`.
pub open spec fn encode(v: Bencode) -> Seq<u8>
    decreases v, 0nat,
{
    match v {
        Bencode::ByteString(bytes) => encode_bytes(bytes),
        Bencode::Integer(n) => seq![INTEGER] + signed_decimal(n) + seq![END],
        Bencode::List(items) => seq![LIST] + encode_items(items, items.len()) + seq![END],
        Bencode::Dictionary(entries) => seq![DICTIONARY] + encode_entries(entries, entries.len())
            + seq![END],
    }
}

/// The first `n` items of a list, written one after the other.
pub open spec fn encode_items(items: Seq<Bencode>, n: nat) -> Seq<u8>
    decreases items, n,
{
    if n == 0 || n > items.len() {
        Seq::empty()
    } else {
        encode_items(items, (n - 1) as nat) + encode(items[n - 1])
    }
}

/// The first `n` entries of a dictionary, written one after the other.
pub open spec fn encode_entries(entries: Seq<(Seq<u8>, Bencode)>, n: nat) -> Seq<u8>
    decreases entries, n,
{
    if n == 0 || n > entries.len() {
        Seq::empty()
    } else {
        encode_entries(entries, (n - 1) as nat) + encode_bytes(entries[n - 1].0) + encode(
            entries[n - 1].1,
        )
    }
}

/// The byte string that starts at `pos`, with the position behind it: a run of
/// digits, a colon, and as many bytes as the digits say. Read strictly, the
/// length has no leading zero.
pub open spec fn parse_string(s: Seq<u8>, pos: int, strict: bool) -> Option<(Seq<u8>, int)> {
    let colon = digits_end(s, pos);
    let n = digits_value(s, pos, colon);
    let fits = 0 <= pos < colon && colon < s.len() && s[colon] == COLON && colon + 1 + n <= s.len();
    let no_leading_zero = s[pos] == ZERO ==> colon == pos + 1;
    if fits && (strict ==> no_leading_zero) {
        Some((s.subrange(colon + 1, colon + 1 + n), colon + 1 + n))
    } else {
        None
    }
}

/// The integer that starts at `pos`, with the position behind it: `i`, an
/// optional minus sign, a run of digits whose value fits in 64 bits, and `e`.
/// Read strictly, the digits have no leading zero and zero has no sign.
pub open spec fn parse_integer(s: Seq<u8>, pos: int, strict: bool) -> Option<(int, int)> {
    if 0 <= pos && pos + 1 < s.len() && s[pos] == INTEGER {
        let negative = s[pos + 1] == MINUS;
        let first = if negative {
            pos + 2
        } else {
            pos + 1
        };
        let end = digits_end(s, first);
        let magnitude = digits_value(s, first, end);
        let n = if negative {
            -magnitude
        } else {
            magnitude as int
        };
        let fits = first < end && end < s.len() && s[end] == END && i64::MIN <= n <= i64::MAX;
        let plain_zero = s[first] == ZERO ==> end == first + 1 && !negative;
        if fits && (strict ==> plain_zero) {
            Some((n, end + 1))
        } else {
            None
        }
    } else {
        None
    }
}

/// The value that starts at `pos`, with the position behind it; `None` where
/// the bytes from `pos` on do not start with a value.
///
/// The first byte decides: a digit starts a byte string, `i` an integer, `l` a
/// list and `d` a dictionary. Read strictly, numerals have no leading zeros and
/// the keys of a dictionary strictly increase; otherwise the keys may come in
/// any order, and of two equal keys the later one counts.
pub open spec fn parse_value(s: Seq<u8>, pos: int, strict: bool) -> Option<(Bencode, int)>
    decreases s.len() - pos, 0nat,
{
    if 0 <= pos < s.len() {
        if is_digit(s[pos]) {
            match parse_string(s, pos, strict) {
                Some((bytes, end)) => Some((Bencode::ByteString(bytes), end)),
                None => None,
            }
        } else if s[pos] == INTEGER {
            match parse_integer(s, pos, strict) {
                Some((n, end)) => Some((Bencode::Integer(n), end)),
                None => None,
            }
        } else if s[pos] == LIST {
            match parse_items(s, pos + 1, strict, Seq::empty()) {
                Some((items, end)) => Some((Bencode::List(items), end)),
                None => None,
            }
        } else if s[pos] == DICTIONARY {
            match parse_entries(s, pos + 1, strict, Seq::empty()) {
                Some((entries, end)) => Some((Bencode::Dictionary(entries), end)),
                None => None,
            }
        } else {
            None
        }
    } else {
        None
    }
}

/// The items of a list from `pos` up to the closing `e`, added to `items`, with
/// the position behind the `e`.
pub open spec fn parse_items(s: Seq<u8>, pos: int, strict: bool, items: Seq<Bencode>) -> Option<
    (Seq<Bencode>, int),
>
    decreases s.len() - pos, 1nat,
{
    if 0 <= pos < s.len() {
        if s[pos] == END {
            Some((items, pos + 1))
        } else {
            match parse_value(s, pos, strict) {
                Some((item, next)) => if pos < next <= s.len() {
                    parse_items(s, next, strict, items.push(item))
                } else {
                    None
                },
                None => None,
            }
        }
    } else {
        None
    }
}

/// The entries of a dictionary from `pos` up to the closing `e`, put into
/// `entries`, with the position behind the `e`. Each entry is a byte string,
/// the key, and a value.
pub open spec fn parse_entries(
    s: Seq<u8>,
    pos: int,
    strict: bool,
    entries: Seq<(Seq<u8>, Bencode)>,
) -> Option<(Seq<(Seq<u8>, Bencode)>, int)>
    decreases s.len() - pos, 1nat,
{
    if 0 <= pos < s.len() {
        if s[pos] == END {
            Some((entries, pos + 1))
        } else if is_digit(s[pos]) {
            match parse_string(s, pos, strict) {
                Some((key, mid)) => match parse_value(s, mid, strict) {
                    Some((value, next)) => if pos < mid < next <= s.len() && (strict
                        ==> entries.len() == 0 || key_less(entries.last().0, key)) {
                        parse_entries(s, next, strict, dict_insert(entries, key, value))
                    } else {
                        None
                    },
                    None => None,
                },
                None => None,
            }
        } else {
            None
        }
    } else {
        None
    }
}

/// The list that starts at `pos`, with the position behind it.
pub open spec fn parse_list(s: Seq<u8>, pos: int, strict: bool) -> Option<(Seq<Bencode>, int)> {
    if 0 <= pos < s.len() && s[pos] == LIST {
        parse_items(s, pos + 1, strict, Seq::empty())
    } else {
        None
    }
}

/// The dictionary that starts at `pos`, with the position behind it.
pub open spec fn parse_dictionary(s: Seq<u8>, pos: int, strict: bool) -> Option<
    (Seq<(Seq<u8>, Bencode)>, int),
> {
    if 0 <= pos < s.len() && s[pos] == DICTIONARY {
        parse_entries(s, pos + 1, strict, Seq::empty())
    } else {
        None
    }
}

/// The value that the bytes of `s` start with, as the decoder reads it.
pub open spec fn decode(s: Seq<u8>) -> Option<Bencode> {
    match parse_value(s, 0, false) {
        Some((v, _)) => Some(v),
        None => None,
    }
}

/// Whether `s` is one value written in canonical form and nothing else:
/// numerals without leading zeros and the keys of each dictionary in strictly
/// increasing order.
pub open spec fn canonical(s: Seq<u8>) -> bool {
    match parse_value(s, 0, true) {
        Some((_, end)) => end == s.len(),
        None => false,
    }
}

} // verus!
