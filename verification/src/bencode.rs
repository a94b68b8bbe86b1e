//! Bencoded values: reading them from bytes and writing them back.
use crate::digits::{all_digits, digits_end, digits_value, push_decimal, NINE, ZERO};
use crate::error::Error;
use crate::dictionary::{insert_entry, values_wf};
use crate::grammar::{
    canonical, decode, encode, encode_bytes, encode_entries, encode_items, keys_increase,
    parse_dictionary, parse_entries, parse_integer, parse_items, parse_list, parse_string,
    parse_value, Bencode, COLON, DICTIONARY, END, INTEGER, LIST, MINUS,
};
use crate::roundtrip::lemma_decode_encode;
use crate::wire::append_bytes;
use vstd::prelude::*;
use vstd::slice::{slice_subrange, slice_to_vec};

verus! {

/// A bencoded value.
///
/// The entries of a dictionary are held in the order of their keys; `wf` says
/// so, the decoder and `insert_entry` see to it.
#[derive(Debug)]
pub enum BencodeValue {
    ByteString(Vec<u8>),
    Integer(i64),
    List(Vec<BencodeValue>),
    Dictionary(Vec<(Vec<u8>, BencodeValue)>),
}

impl View for BencodeValue {
    type V = Bencode;

    open spec fn view(&self) -> Bencode
        decreases self,
    {
        match self {
            BencodeValue::ByteString(bytes) => Bencode::ByteString(bytes@),
            BencodeValue::Integer(n) => Bencode::Integer(*n as int),
            BencodeValue::List(items) => Bencode::List(
                Seq::new(
                    items.len() as nat,
                    |i: int|
                        if 0 <= i < items.len() {
                            items[i]@
                        } else {
                            Bencode::Integer(0)
                        },
                ),
            ),
            BencodeValue::Dictionary(entries) => Bencode::Dictionary(
                Seq::new(
                    entries.len() as nat,
                    |i: int|
                        (
                            entries[i].0@,
                            if 0 <= i < entries.len() {
                                entries[i].1@
                            } else {
                                Bencode::Integer(0)
                            },
                        ),
                ),
            ),
        }
    }
}

/// The trees of the items of a list.
pub open spec fn items_view(items: Seq<BencodeValue>) -> Seq<Bencode> {
    Seq::new(items.len(), |i: int| items[i]@)
}

/// The keys and trees of the entries of a dictionary.
pub open spec fn entries_view(entries: Seq<(Vec<u8>, BencodeValue)>) -> Seq<(Seq<u8>, Bencode)> {
    Seq::new(entries.len(), |i: int| (entries[i].0@, entries[i].1@))
}

/// The tree of a list holds the trees of its items.
pub proof fn lemma_view_list(items: Vec<BencodeValue>)
    ensures
        BencodeValue::List(items)@ == Bencode::List(items_view(items@)),
{
    assert(BencodeValue::List(items)@->List_0 =~= items_view(items@));
}

/// The tree of a dictionary holds the keys and trees of its entries.
pub proof fn lemma_view_dictionary(entries: Vec<(Vec<u8>, BencodeValue)>)
    ensures
        BencodeValue::Dictionary(entries)@ == Bencode::Dictionary(entries_view(entries@)),
{
    assert(BencodeValue::Dictionary(entries)@->Dictionary_0 =~= entries_view(entries@));
}

/// Reads the run of digits that starts at `pos`: where it ends, and the number
/// that it spells, or `None` where that number is above `limit`.
fn read_number(input: &[u8], pos: usize, limit: u64) -> (res: (Option<u64>, usize))
    requires
        pos <= input.len(),
    ensures
        res.1 == digits_end(input@, pos as int),
        pos <= res.1 <= input.len(),
        match res.0 {
            Some(n) => n == digits_value(input@, pos as int, res.1 as int) && n <= limit,
            None => digits_value(input@, pos as int, res.1 as int) > limit,
        },
{
    let mut i: usize = pos;
    let mut n: u64 = 0;
    let mut over = false;
    while i < input.len() && ZERO <= input[i] && input[i] <= NINE
        invariant
            pos <= i <= input.len(),
            all_digits(input@, pos as int, i as int),
            digits_end(input@, pos as int) == digits_end(input@, i as int),
            !over ==> n == digits_value(input@, pos as int, i as int) && n <= limit,
            over ==> digits_value(input@, pos as int, i as int) > limit,
        decreases input.len() - i,
    {
        let digit: u8 = input[i] - ZERO;
        if !over {
            let next: u128 = n as u128 * 10 + digit as u128;
            if next > limit as u128 {
                over = true;
            } else {
                n = next as u64;
            }
        }
        i += 1;
    }
    if over {
        (None, i)
    } else {
        (Some(n), i)
    }
}

/// Reads the byte string that starts at `pos`.
fn read_string(input: &[u8], pos: usize) -> (res: Result<(Vec<u8>, usize), Error>)
    ensures
        match res {
            Ok((bytes, end)) => parse_string(input@, pos as int, false) == Some(
                (bytes@, end as int),
            ) && pos < end <= input.len(),
            Err(e) => e == Error::MalformedBencode && parse_string(input@, pos as int, false)
                is None,
        },
{
    if pos >= input.len() {
        return Err(Error::MalformedBencode);
    }
    let (length, colon) = read_number(input, pos, input.len() as u64);
    if colon == pos || colon >= input.len() || input[colon] != COLON {
        return Err(Error::MalformedBencode);
    }
    match length {
        None => Err(Error::MalformedBencode),
        Some(n) => {
            if n as usize > input.len() - (colon + 1) {
                return Err(Error::MalformedBencode);
            }
            let end: usize = colon + 1 + n as usize;
            let bytes = slice_to_vec(slice_subrange(input, colon + 1, end));
            Ok((bytes, end))
        },
    }
}

/// Reads the integer that starts at `pos`.
fn read_integer(input: &[u8], pos: usize) -> (res: Result<(i64, usize), Error>)
    ensures
        match res {
            Ok((n, end)) => parse_integer(input@, pos as int, false) == Some(
                (n as int, end as int),
            ) && pos < end <= input.len(),
            Err(e) => e == Error::MalformedBencode && parse_integer(input@, pos as int, false)
                is None,
        },
{
    if pos >= input.len() || input.len() - pos < 2 || input[pos] != INTEGER {
        return Err(Error::MalformedBencode);
    }
    let negative = input[pos + 1] == MINUS;
    let first: usize = if negative {
        pos + 2
    } else {
        pos + 1
    };
    let (magnitude, end) = read_number(input, first, 0x8000_0000_0000_0000);
    if end == first || end >= input.len() || input[end] != END {
        return Err(Error::MalformedBencode);
    }
    match magnitude {
        None => Err(Error::MalformedBencode),
        Some(m) => {
            if negative {
                if m == 0x8000_0000_0000_0000 {
                    Ok((i64::MIN, end + 1))
                } else {
                    Ok((-(m as i64), end + 1))
                }
            } else if m > 0x7fff_ffff_ffff_ffff {
                Err(Error::MalformedBencode)
            } else {
                Ok((m as i64, end + 1))
            }
        },
    }
}

impl BencodeValue {
    /// Whether the value is well formed: the keys of every dictionary in it
    /// strictly increase.
    pub open spec fn wf(&self) -> bool {
        self@.wf()
    }

    /// Decodes the byte string that starts at `pos` of `input`, and says where
    /// it ends.
    ///
    /// A byte string is a decimal length, a colon, and that many bytes. The
    /// call fails where `pos` holds no digit, the colon is missing, or the
    /// input ends before the bytes do.
    pub fn from_bencoded_string(input: &[u8], pos: usize) -> (res: Result<(Self, usize), Error>)
        ensures
            match res {
                Ok((value, end)) => value@ is ByteString && value.wf() && parse_string(
                    input@,
                    pos as int,
                    false,
                ) == Some((value@->ByteString_0, end as int)) && pos < end <= input.len(),
                Err(e) => e == Error::MalformedBencode && parse_string(input@, pos as int, false)
                    is None,
            },
    {
        match read_string(input, pos) {
            Ok((bytes, end)) => Ok((BencodeValue::ByteString(bytes), end)),
            Err(e) => Err(e),
        }
    }

    /// Decodes the integer that starts at `pos` of `input`, and says where it
    /// ends.
    ///
    /// An integer is `i`, an optional minus sign, decimal digits and `e`. The
    /// call fails where one of these is missing or the number does not fit in
    /// 64 bits.
    pub fn from_bencoded_integer(input: &[u8], pos: usize) -> (res: Result<(Self, usize), Error>)
        ensures
            match res {
                Ok((value, end)) => value@ is Integer && value.wf() && parse_integer(
                    input@,
                    pos as int,
                    false,
                ) == Some((value@->Integer_0, end as int)) && pos < end <= input.len(),
                Err(e) => e == Error::MalformedBencode && parse_integer(input@, pos as int, false)
                    is None,
            },
    {
        match read_integer(input, pos) {
            Ok((n, end)) => Ok((BencodeValue::Integer(n), end)),
            Err(e) => Err(e),
        }
    }

    /// Decodes the list that starts at `pos` of `input`, and says where it
    /// ends.
    ///
    /// A list is `l`, its items one after the other, and `e`. The call fails
    /// where `pos` holds no `l`, an item is malformed, or the input ends before
    /// the closing `e`.
    pub fn from_bencoded_list(input: &[u8], pos: usize) -> (res: Result<(Self, usize), Error>)
        ensures
            match res {
                Ok((value, end)) => value@ is List && value.wf() && parse_list(
                    input@,
                    pos as int,
                    false,
                ) == Some((value@->List_0, end as int)) && pos < end <= input.len(),
                Err(e) => e == Error::MalformedBencode && parse_list(input@, pos as int, false)
                    is None,
            },
        decreases input.len() - pos, 1nat,
    {
        if pos >= input.len() || input[pos] != LIST {
            return Err(Error::MalformedBencode);
        }
        let mut items: Vec<BencodeValue> = Vec::new();
        let mut cur: usize = pos + 1;
        assert(items_view(items@) =~= Seq::<Bencode>::empty());
        loop
            invariant
                pos < cur <= input.len(),
                input[pos as int] == LIST,
                parse_list(input@, pos as int, false) == parse_items(
                    input@,
                    cur as int,
                    false,
                    items_view(items@),
                ),
                forall|i: int| 0 <= i < items.len() ==> (#[trigger] items[i]).wf(),
            decreases input.len() - cur,
        {
            if cur >= input.len() {
                return Err(Error::MalformedBencode);
            }
            if input[cur] == END {
                proof {
                    lemma_view_list(items);
                    assert forall|i: int| 0 <= i < items_view(items@).len() implies (
                    #[trigger] items_view(items@)[i]).wf() by {
                        assert(items[i].wf());
                    }
                }
                return Ok((BencodeValue::List(items), cur + 1));
            }
            match decode_bencoded_value(input, cur) {
                Err(e) => {
                    return Err(e);
                },
                Ok((item, next)) => {
                    assert(items_view(items@.push(item)) =~= items_view(items@).push(item@));
                    items.push(item);
                    cur = next;
                },
            }
        }
    }

    /// Decodes the dictionary that starts at `pos` of `input`, and says where
    /// it ends.
    ///
    /// A dictionary is `d`, its entries one after the other, and `e`; an entry
    /// is a byte string, the key, and a value. The keys may come in any order;
    /// of two entries with one key the later one counts. The call fails where
    /// `pos` holds no `d`, a key is no byte string, a key or a value is
    /// malformed, or the input ends before the closing `e`.
    pub fn from_bencoded_dictionary(input: &[u8], pos: usize) -> (res: Result<
        (Self, usize),
        Error,
    >)
        ensures
            match res {
                Ok((value, end)) => value@ is Dictionary && value.wf() && parse_dictionary(
                    input@,
                    pos as int,
                    false,
                ) == Some((value@->Dictionary_0, end as int)) && pos < end <= input.len(),
                Err(e) => e == Error::MalformedBencode && parse_dictionary(
                    input@,
                    pos as int,
                    false,
                ) is None,
            },
        decreases input.len() - pos, 1nat,
    {
        if pos >= input.len() || input[pos] != DICTIONARY {
            return Err(Error::MalformedBencode);
        }
        let mut entries: Vec<(Vec<u8>, BencodeValue)> = Vec::new();
        let mut cur: usize = pos + 1;
        assert(entries_view(entries@) =~= Seq::<(Seq<u8>, Bencode)>::empty());
        loop
            invariant
                pos < cur <= input.len(),
                input[pos as int] == DICTIONARY,
                parse_dictionary(input@, pos as int, false) == parse_entries(
                    input@,
                    cur as int,
                    false,
                    entries_view(entries@),
                ),
                keys_increase(entries_view(entries@)),
                values_wf(entries_view(entries@)),
            decreases input.len() - cur,
        {
            if cur >= input.len() {
                return Err(Error::MalformedBencode);
            }
            if input[cur] == END {
                proof {
                    lemma_view_dictionary(entries);
                }
                return Ok((BencodeValue::Dictionary(entries), cur + 1));
            }
            if input[cur] < ZERO || input[cur] > NINE {
                return Err(Error::MalformedBencode);
            }
            match read_string(input, cur) {
                Err(e) => {
                    return Err(e);
                },
                Ok((key, mid)) => {
                    match decode_bencoded_value(input, mid) {
                        Err(e) => {
                            return Err(e);
                        },
                        Ok((value, next)) => {
                            insert_entry(&mut entries, key, value);
                            cur = next;
                        },
                    }
                },
            }
        }
    }
}

/// Decodes the value that starts at `pos` of `input`, and says where it ends.
///
/// The first byte decides what is read: a digit starts a byte string, `i` an
/// integer, `l` a list and `d` a dictionary. The call fails with
/// `MalformedBencode`, and only then, where the bytes from `pos` on do not
/// start with a value.
pub fn decode_bencoded_value(input: &[u8], pos: usize) -> (res: Result<
    (BencodeValue, usize),
    Error,
>)
    ensures
        match res {
            Ok((value, end)) => value.wf() && parse_value(input@, pos as int, false) == Some(
                (value@, end as int),
            ) && pos < end <= input.len(),
            Err(e) => e == Error::MalformedBencode && parse_value(input@, pos as int, false)
                is None,
        },
    decreases input.len() - pos, 2nat,
{
    if pos >= input.len() {
        return Err(Error::MalformedBencode);
    }
    let first = input[pos];
    if ZERO <= first && first <= NINE {
        BencodeValue::from_bencoded_string(input, pos)
    } else if first == INTEGER {
        BencodeValue::from_bencoded_integer(input, pos)
    } else if first == LIST {
        BencodeValue::from_bencoded_list(input, pos)
    } else if first == DICTIONARY {
        BencodeValue::from_bencoded_dictionary(input, pos)
    } else {
        Err(Error::MalformedBencode)
    }
}

/// Appends a byte string as it is written in bencode: its length, a colon,
/// its bytes.
pub fn write_bytes(out: &mut Vec<u8>, bytes: &[u8])
    ensures
        final(out)@ == old(out)@ + encode_bytes(bytes@),
{
    push_decimal(out, bytes.len() as u64);
    out.push(COLON);
    append_bytes(out, bytes);
    assert(out@ =~= old(out)@ + encode_bytes(bytes@));
}

/// Appends an integer as it is written in bencode, between `i` and `e`.
pub fn write_integer(out: &mut Vec<u8>, n: i64)
    ensures
        final(out)@ == old(out)@ + encode(Bencode::Integer(n as int)),
{
    out.push(INTEGER);
    if n < 0 {
        out.push(MINUS);
        let magnitude: u64 = if n == i64::MIN {
            0x8000_0000_0000_0000
        } else {
            (-n) as u64
        };
        push_decimal(out, magnitude);
    } else {
        push_decimal(out, n as u64);
    }
    out.push(END);
    assert(out@ =~= old(out)@ + encode(Bencode::Integer(n as int)));
}

impl BencodeValue {
    /// Appends the bytes that the value is written as to `out`.
    pub fn encode_into(&self, out: &mut Vec<u8>)
        ensures
            final(out)@ == old(out)@ + encode(self@),
        decreases self,
    {
        match self {
            BencodeValue::ByteString(bytes) => {
                write_bytes(out, bytes.as_slice());
            },
            BencodeValue::Integer(n) => {
                write_integer(out, *n);
            },
            BencodeValue::List(items) => {
                proof {
                    lemma_view_list(*items);
                }
                let ghost trees = items_view(items@);
                out.push(LIST);
                let mut i: usize = 0;
                while i < items.len()
                    invariant
                        i <= items.len(),
                        *self == BencodeValue::List(*items),
                        trees == items_view(items@),
                        out@ == old(out)@ + seq![LIST] + encode_items(trees, i as nat),
                    decreases items.len() - i,
                {
                    assert(self->List_0 == *items);
                    assert(decreases_to!(*self => self->List_0));
                    assert(decreases_to!(*items => items[i as int]));
                    items[i].encode_into(out);
                    assert(out@ =~= old(out)@ + seq![LIST] + encode_items(trees, (i + 1) as nat));
                    i += 1;
                }
                out.push(END);
                assert(out@ =~= old(out)@ + encode(self@));
            },
            BencodeValue::Dictionary(entries) => {
                proof {
                    lemma_view_dictionary(*entries);
                }
                let ghost trees = entries_view(entries@);
                out.push(DICTIONARY);
                let mut i: usize = 0;
                while i < entries.len()
                    invariant
                        i <= entries.len(),
                        *self == BencodeValue::Dictionary(*entries),
                        trees == entries_view(entries@),
                        out@ == old(out)@ + seq![DICTIONARY] + encode_entries(trees, i as nat),
                    decreases entries.len() - i,
                {
                    write_bytes(out, entries[i].0.as_slice());
                    assert(self->Dictionary_0 == *entries);
                    assert(decreases_to!(*self => self->Dictionary_0));
                    assert(decreases_to!(*entries => entries[i as int]));
                    assert(decreases_to!(entries[i as int] => entries[i as int].1));
                    entries[i].1.encode_into(out);
                    assert(out@ =~= old(out)@ + seq![DICTIONARY] + encode_entries(
                        trees,
                        (i + 1) as nat,
                    ));
                    i += 1;
                }
                out.push(END);
                assert(out@ =~= old(out)@ + encode(self@));
            },
        }
    }

    /// A copy of the value.
    pub fn duplicate(&self) -> (copy: Self)
        ensures
            copy@ == self@,
        decreases self,
    {
        match self {
            BencodeValue::ByteString(bytes) => BencodeValue::ByteString(
                slice_to_vec(bytes.as_slice()),
            ),
            BencodeValue::Integer(n) => BencodeValue::Integer(*n),
            BencodeValue::List(items) => {
                let mut copy: Vec<BencodeValue> = Vec::new();
                let mut i: usize = 0;
                while i < items.len()
                    invariant
                        i <= items.len(),
                        *self == BencodeValue::List(*items),
                        copy.len() == i,
                        forall|j: int| 0 <= j < i ==> (#[trigger] copy[j])@ == items[j]@,
                    decreases items.len() - i,
                {
                    assert(self->List_0 == *items);
                    assert(decreases_to!(*self => self->List_0));
                    assert(decreases_to!(*items => items[i as int]));
                    let item = items[i].duplicate();
                    copy.push(item);
                    i += 1;
                }
                proof {
                    lemma_view_list(*items);
                    lemma_view_list(copy);
                    assert(items_view(copy@) =~= items_view(items@));
                }
                BencodeValue::List(copy)
            },
            BencodeValue::Dictionary(entries) => {
                let mut copy: Vec<(Vec<u8>, BencodeValue)> = Vec::new();
                let mut i: usize = 0;
                while i < entries.len()
                    invariant
                        i <= entries.len(),
                        *self == BencodeValue::Dictionary(*entries),
                        copy.len() == i,
                        forall|j: int|
                            0 <= j < i ==> (#[trigger] copy[j]).0@ == entries[j].0@ && copy[j].1@
                                == entries[j].1@,
                    decreases entries.len() - i,
                {
                    assert(self->Dictionary_0 == *entries);
                    assert(decreases_to!(*self => self->Dictionary_0));
                    assert(decreases_to!(*entries => entries[i as int]));
                    assert(decreases_to!(entries[i as int] => entries[i as int].1));
                    let key = slice_to_vec(entries[i].0.as_slice());
                    let value = entries[i].1.duplicate();
                    copy.push((key, value));
                    i += 1;
                }
                proof {
                    lemma_view_dictionary(*entries);
                    lemma_view_dictionary(copy);
                    assert(entries_view(copy@) =~= entries_view(entries@));
                }
                BencodeValue::Dictionary(copy)
            },
        }
    }

    /// The bytes that the value is written as.
    ///
    /// For a well-formed value this is its canonical form, with the keys of
    /// every dictionary in increasing order, and decoding it gives the value
    /// back. A dictionary whose entries are not in the order of their keys is
    /// written in the order in which it holds them.
    pub fn to_bytes(&self) -> (bytes: Vec<u8>)
        ensures
            bytes@ == encode(self@),
            self.wf() ==> canonical(bytes@) && decode(bytes@) == Some(self@),
    {
        let mut out: Vec<u8> = Vec::new();
        self.encode_into(&mut out);
        proof {
            if self.wf() {
                lemma_decode_encode(self@);
            }
        }
        out
    }
}

} // verus!
