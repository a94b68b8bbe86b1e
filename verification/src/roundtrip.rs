//! What reading and writing have to do with each other: a value that is
//! written and read again is the same value, and canonical bytes that are read
//! and written again are the same bytes.
use crate::digits::{
    decimal, digits_end, digits_value, is_digit, lemma_decimal_shape, lemma_decimal_value,
    lemma_digits_canonical, lemma_digits_end, lemma_digits_end_unique, lemma_digits_value_same,
    ZERO,
};
use crate::grammar::{
    canonical, decode, dict_insert, encode, encode_bytes, encode_entries, encode_items, key_less,
    keys_increase, parse_entries, parse_integer, parse_items, parse_string, parse_value,
    signed_decimal, Bencode, COLON, DICTIONARY, END, INTEGER, LIST, MINUS,
};
use crate::order::lemma_key_less_transitive;
use vstd::prelude::*;

verus! {

/// Whether `s` holds the bytes of `t` from `pos` on.
pub open spec fn holds_at(s: Seq<u8>, pos: int, t: Seq<u8>) -> bool {
    0 <= pos && pos + t.len() <= s.len() && s.subrange(pos, pos + t.len()) == t
}

/// Where `s` holds `t`, it holds each byte of `t`.
pub proof fn lemma_holds_byte(s: Seq<u8>, pos: int, t: Seq<u8>, i: int)
    requires
        holds_at(s, pos, t),
        0 <= i < t.len(),
    ensures
        s[pos + i] == t[i],
{
    assert(s.subrange(pos, pos + t.len())[i] == t[i]);
}

/// Where `s` holds `t`, it holds every part of `t` at its place.
pub proof fn lemma_holds_part(s: Seq<u8>, pos: int, t: Seq<u8>, from: int, to: int)
    requires
        holds_at(s, pos, t),
        0 <= from <= to <= t.len(),
    ensures
        holds_at(s, pos + from, t.subrange(from, to)),
{
    let part = t.subrange(from, to);
    assert forall|i: int| 0 <= i < part.len() implies s.subrange(pos + from, pos + to)[i]
        == part[i] by {
        lemma_holds_byte(s, pos, t, from + i);
    }
    assert(s.subrange(pos + from, pos + from + part.len()) =~= part);
}

/// Where `s` holds two runs of bytes one after the other, it holds each.
pub proof fn lemma_holds_split(s: Seq<u8>, pos: int, a: Seq<u8>, b: Seq<u8>)
    requires
        holds_at(s, pos, a + b),
    ensures
        holds_at(s, pos, a),
        holds_at(s, pos + a.len(), b),
{
    let t = a + b;
    lemma_holds_part(s, pos, t, 0, a.len() as int);
    lemma_holds_part(s, pos, t, a.len() as int, t.len() as int);
    assert(t.subrange(0, a.len() as int) =~= a);
    assert(t.subrange(a.len() as int, t.len() as int) =~= b);
}

/// Where `s` holds a numeral that something other than a digit follows, the
/// run of digits there ends with the numeral and spells its number.
pub proof fn lemma_numeral_read(s: Seq<u8>, pos: int, n: nat)
    requires
        holds_at(s, pos, decimal(n)),
        pos + decimal(n).len() < s.len() ==> !is_digit(s[pos + decimal(n).len()]),
    ensures
        digits_end(s, pos) == pos + decimal(n).len(),
        digits_value(s, pos, pos + decimal(n).len()) == n,
        s[pos] == ZERO ==> decimal(n).len() == 1 && n == 0,
{
    let d = decimal(n);
    lemma_decimal_shape(n);
    lemma_decimal_value(n);
    assert forall|i: int| pos <= i < pos + d.len() implies is_digit(#[trigger] s[i]) && s[i]
        == d[i - pos + 0] by {
        lemma_holds_byte(s, pos, d, i - pos);
    }
    lemma_digits_end_unique(s, pos, pos + d.len());
    lemma_digits_value_same(s, pos, d, 0, d.len() as int);
    lemma_holds_byte(s, pos, d, 0);
}

/// A written byte string is read as that byte string.
pub proof fn lemma_parse_encoded_bytes(bytes: Seq<u8>, s: Seq<u8>, pos: int, strict: bool)
    requires
        holds_at(s, pos, encode_bytes(bytes)),
    ensures
        parse_string(s, pos, strict) == Some((bytes, pos + encode_bytes(bytes).len())),
{
    let d = decimal(bytes.len());
    lemma_decimal_shape(bytes.len());
    lemma_holds_split(s, pos, d + seq![COLON], bytes);
    lemma_holds_split(s, pos, d, seq![COLON]);
    lemma_holds_byte(s, pos + d.len(), seq![COLON], 0);
    lemma_numeral_read(s, pos, bytes.len());
    assert(s.subrange(pos + d.len() + 1, pos + d.len() + 1 + bytes.len()) == bytes);
}

/// A written integer is read as that integer.
pub proof fn lemma_parse_encoded_integer(n: int, s: Seq<u8>, pos: int, strict: bool)
    requires
        i64::MIN <= n <= i64::MAX,
        holds_at(s, pos, encode(Bencode::Integer(n))),
    ensures
        parse_integer(s, pos, strict) == Some((n, pos + encode(Bencode::Integer(n)).len())),
{
    let body = signed_decimal(n);
    let magnitude: nat = if n < 0 {
        (-n) as nat
    } else {
        n as nat
    };
    let d = decimal(magnitude);
    lemma_decimal_shape(magnitude);
    lemma_holds_split(s, pos, seq![INTEGER] + body, seq![END]);
    lemma_holds_split(s, pos, seq![INTEGER], body);
    lemma_holds_byte(s, pos, seq![INTEGER], 0);
    lemma_holds_byte(s, pos + 1 + body.len(), seq![END], 0);
    if n < 0 {
        lemma_holds_split(s, pos + 1, seq![MINUS], d);
        lemma_holds_byte(s, pos + 1, seq![MINUS], 0);
        lemma_numeral_read(s, pos + 2, magnitude);
    } else {
        lemma_holds_byte(s, pos + 1, d, 0);
        lemma_numeral_read(s, pos + 1, magnitude);
    }
}

/// The first byte of a written value is a digit, `i`, `l` or `d`: never `e`.
pub proof fn lemma_encode_first(v: Bencode)
    ensures
        encode(v).len() >= 2,
        is_digit(encode(v)[0]) || encode(v)[0] == INTEGER || encode(v)[0] == LIST || encode(v)[0]
            == DICTIONARY,
        v is ByteString <==> is_digit(encode(v)[0]),
        v is Integer <==> encode(v)[0] == INTEGER,
        v is List <==> encode(v)[0] == LIST,
        v is Dictionary <==> encode(v)[0] == DICTIONARY,
{
    match v {
        Bencode::ByteString(bytes) => {
            lemma_decimal_shape(bytes.len());
        },
        Bencode::Integer(n) => {
            lemma_decimal_shape(
                if n < 0 {
                    (-n) as nat
                } else {
                    n as nat
                },
            );
        },
        _ => {},
    }
}

/// The first `k` written items are the start of the first `n` written items.
pub proof fn lemma_encode_items_prefix(items: Seq<Bencode>, k: nat, n: nat)
    requires
        k <= n <= items.len(),
    ensures
        encode_items(items, k).len() <= encode_items(items, n).len(),
        encode_items(items, n).subrange(0, encode_items(items, k).len() as int) == encode_items(
            items,
            k,
        ),
    decreases n,
{
    if k == n {
        assert(encode_items(items, n).subrange(0, encode_items(items, k).len() as int)
            =~= encode_items(items, k));
    } else {
        lemma_encode_items_prefix(items, k, (n - 1) as nat);
        assert(encode_items(items, n).subrange(0, encode_items(items, k).len() as int)
            =~= encode_items(items, (n - 1) as nat).subrange(
            0,
            encode_items(items, k).len() as int,
        ));
    }
}

/// The first `k` written entries are the start of the first `n` written
/// entries.
pub proof fn lemma_encode_entries_prefix(entries: Seq<(Seq<u8>, Bencode)>, k: nat, n: nat)
    requires
        k <= n <= entries.len(),
    ensures
        encode_entries(entries, k).len() <= encode_entries(entries, n).len(),
        encode_entries(entries, n).subrange(0, encode_entries(entries, k).len() as int)
            == encode_entries(entries, k),
    decreases n,
{
    if k == n {
        assert(encode_entries(entries, n).subrange(0, encode_entries(entries, k).len() as int)
            =~= encode_entries(entries, k));
    } else {
        lemma_encode_entries_prefix(entries, k, (n - 1) as nat);
        assert(encode_entries(entries, n).subrange(0, encode_entries(entries, k).len() as int)
            =~= encode_entries(entries, (n - 1) as nat).subrange(
            0,
            encode_entries(entries, k).len() as int,
        ));
    }
}

/// A written value is read as that value, wherever it stands and whatever
/// follows it, strictly or not.
pub proof fn lemma_parse_encoded(v: Bencode, s: Seq<u8>, pos: int, strict: bool)
    requires
        v.wf(),
        holds_at(s, pos, encode(v)),
    ensures
        parse_value(s, pos, strict) == Some((v, pos + encode(v).len())),
    decreases v, 0nat,
{
    lemma_encode_first(v);
    lemma_holds_byte(s, pos, encode(v), 0);
    match v {
        Bencode::ByteString(bytes) => {
            lemma_parse_encoded_bytes(bytes, s, pos, strict);
        },
        Bencode::Integer(n) => {
            lemma_parse_encoded_integer(n, s, pos, strict);
        },
        Bencode::List(items) => {
            let body = encode_items(items, items.len());
            lemma_holds_split(s, pos, seq![LIST] + body, seq![END]);
            lemma_holds_split(s, pos, seq![LIST], body);
            lemma_holds_byte(s, pos + 1 + body.len(), seq![END], 0);
            assert(items.take(0) =~= Seq::<Bencode>::empty());
            lemma_parse_encoded_items(items, 0, s, pos + 1, strict);
        },
        Bencode::Dictionary(entries) => {
            let body = encode_entries(entries, entries.len());
            lemma_holds_split(s, pos, seq![DICTIONARY] + body, seq![END]);
            lemma_holds_split(s, pos, seq![DICTIONARY], body);
            lemma_holds_byte(s, pos + 1 + body.len(), seq![END], 0);
            assert(entries.take(0) =~= Seq::<(Seq<u8>, Bencode)>::empty());
            lemma_parse_encoded_entries(entries, 0, s, pos + 1, strict);
        },
    }
}

/// Written items are read as those items: from the place of item `k` on, with
/// the items before it in hand.
pub proof fn lemma_parse_encoded_items(
    items: Seq<Bencode>,
    k: nat,
    s: Seq<u8>,
    base: int,
    strict: bool,
)
    requires
        Bencode::List(items).wf(),
        k <= items.len(),
        holds_at(s, base, encode_items(items, items.len())),
        base + encode_items(items, items.len()).len() < s.len(),
        s[base + encode_items(items, items.len()).len()] == END,
    ensures
        encode_items(items, k).len() <= encode_items(items, items.len()).len(),
        parse_items(s, base + encode_items(items, k).len(), strict, items.take(k as int)) == Some(
            (items, base + encode_items(items, items.len()).len() + 1),
        ),
    decreases items, items.len() - k,
{
    let n = items.len();
    let all = encode_items(items, n);
    let pos = base + encode_items(items, k).len();
    lemma_encode_items_prefix(items, k, n);
    if k == n {
        assert(items.take(k as int) =~= items);
    } else {
        let item = items[k as int];
        let next = encode_items(items, k + 1);
        lemma_encode_items_prefix(items, k + 1, n);
        lemma_holds_part(s, base, all, 0, next.len() as int);
        lemma_holds_split(s, base, encode_items(items, k), encode(item));
        lemma_encode_first(item);
        lemma_holds_byte(s, pos, encode(item), 0);
        assert(item.wf()) by {
            let list = Bencode::List(items);
            assert(list.wf());
            assert(list->List_0 == items);
            assert(items[k as int].wf());
        }
        lemma_parse_encoded(item, s, pos, strict);
        assert(items.take(k as int).push(item) =~= items.take(k as int + 1));
        lemma_parse_encoded_items(items, k + 1, s, base, strict);
    }
}

/// Written entries are read as those entries: from the place of entry `k` on,
/// with the entries before it in hand.
pub proof fn lemma_parse_encoded_entries(
    entries: Seq<(Seq<u8>, Bencode)>,
    k: nat,
    s: Seq<u8>,
    base: int,
    strict: bool,
)
    requires
        Bencode::Dictionary(entries).wf(),
        k <= entries.len(),
        holds_at(s, base, encode_entries(entries, entries.len())),
        base + encode_entries(entries, entries.len()).len() < s.len(),
        s[base + encode_entries(entries, entries.len()).len()] == END,
    ensures
        encode_entries(entries, k).len() <= encode_entries(entries, entries.len()).len(),
        parse_entries(s, base + encode_entries(entries, k).len(), strict, entries.take(k as int))
            == Some((entries, base + encode_entries(entries, entries.len()).len() + 1)),
    decreases entries, entries.len() - k,
{
    let n = entries.len();
    let all = encode_entries(entries, n);
    let pos = base + encode_entries(entries, k).len();
    lemma_encode_entries_prefix(entries, k, n);
    if k == n {
        assert(entries.take(k as int) =~= entries);
    } else {
        let key = entries[k as int].0;
        let value = entries[k as int].1;
        let before = entries.take(k as int);
        let next = encode_entries(entries, k + 1);
        lemma_encode_entries_prefix(entries, k + 1, n);
        lemma_holds_part(s, base, all, 0, next.len() as int);
        lemma_holds_split(s, base, encode_entries(entries, k) + encode_bytes(key), encode(value));
        lemma_holds_split(s, base, encode_entries(entries, k), encode_bytes(key));
        lemma_encode_first(Bencode::ByteString(key));
        lemma_encode_first(value);
        lemma_holds_byte(s, pos, encode_bytes(key), 0);
        lemma_parse_encoded_bytes(key, s, pos, strict);
        assert(value.wf()) by {
            reveal_with_fuel(Bencode::wf, 2);
            assert(entries[k as int].1.wf());
        }
        lemma_parse_encoded(value, s, pos + encode_bytes(key).len(), strict);
        if k > 0 {
            assert(before.last() == entries[k - 1]);
            assert(key_less(entries[k - 1].0, entries[k as int].0));
        }
        assert(dict_insert(before, key, value) =~= entries.take(k as int + 1));
        lemma_parse_encoded_entries(entries, k + 1, s, base, strict);
    }
}

/// A well-formed value that is written and decoded again is the same value.
pub proof fn lemma_decode_encode(v: Bencode)
    requires
        v.wf(),
    ensures
        decode(encode(v)) == Some(v),
        canonical(encode(v)),
{
    let s = encode(v);
    assert(s.subrange(0, s.len() as int) =~= s);
    lemma_parse_encoded(v, s, 0, false);
    lemma_parse_encoded(v, s, 0, true);
}

/// A byte string that is read strictly was written as the bytes it was read
/// from.
pub proof fn lemma_strict_string(s: Seq<u8>, pos: int)
    requires
        parse_string(s, pos, true) is Some,
    ensures
        ({
            let (bytes, end) = parse_string(s, pos, true)->0;
            &&& pos < end <= s.len()
            &&& encode_bytes(bytes) == s.subrange(pos, end)
        }),
{
    let colon = digits_end(s, pos);
    let (bytes, end) = parse_string(s, pos, true)->0;
    lemma_digits_end(s, pos);
    lemma_digits_canonical(s, pos, colon);
    assert(encode_bytes(bytes) =~= s.subrange(pos, end));
}

/// An integer that is read strictly was written as the bytes it was read
/// from.
pub proof fn lemma_strict_integer(s: Seq<u8>, pos: int)
    requires
        parse_integer(s, pos, true) is Some,
    ensures
        ({
            let (n, end) = parse_integer(s, pos, true)->0;
            &&& pos < end <= s.len()
            &&& i64::MIN <= n <= i64::MAX
            &&& encode(Bencode::Integer(n)) == s.subrange(pos, end)
        }),
{
    let (n, end) = parse_integer(s, pos, true)->0;
    let negative = s[pos + 1] == MINUS;
    let first = if negative {
        pos + 2
    } else {
        pos + 1
    };
    let last = digits_end(s, first);
    lemma_digits_end(s, first);
    lemma_digits_canonical(s, first, last);
    let magnitude = digits_value(s, first, last);
    if negative {
        assert(is_digit(s[first]));
        assert(s[first] != ZERO);
        lemma_decimal_shape(magnitude);
        if magnitude == 0 {
            assert(decimal(magnitude)[0] == s.subrange(first, last)[0]);
        }
        assert(n < 0);
    }
    assert(encode(Bencode::Integer(n)) =~= s.subrange(pos, end));
}

/// A value that is read strictly is well formed and was written as the bytes
/// it was read from.
pub proof fn lemma_parse_strict(s: Seq<u8>, pos: int)
    requires
        parse_value(s, pos, true) is Some,
    ensures
        ({
            let (v, end) = parse_value(s, pos, true)->0;
            &&& pos < end <= s.len()
            &&& v.wf()
            &&& encode(v) == s.subrange(pos, end)
        }),
    decreases s.len() - pos, 0nat,
{
    let (v, end) = parse_value(s, pos, true)->0;
    if is_digit(s[pos]) {
        lemma_strict_string(s, pos);
    } else if s[pos] == INTEGER {
        lemma_strict_integer(s, pos);
    } else if s[pos] == LIST {
        let empty = Seq::<Bencode>::empty();
        lemma_parse_strict_items(s, pos + 1, empty);
        let items = v->List_0;
        assert(encode(v) =~= s.subrange(pos, end));
    } else {
        let empty = Seq::<(Seq<u8>, Bencode)>::empty();
        lemma_parse_strict_entries(s, pos + 1, empty);
        let entries = v->Dictionary_0;
        assert(encode(v) =~= s.subrange(pos, end));
    }
}

/// Items that are read strictly are well formed and were written as the bytes
/// they were read from.
pub proof fn lemma_parse_strict_items(s: Seq<u8>, pos: int, acc: Seq<Bencode>)
    requires
        parse_items(s, pos, true, acc) is Some,
    ensures
        ({
            let (items, end) = parse_items(s, pos, true, acc)->0;
            &&& pos < end <= s.len()
            &&& s[end - 1] == END
            &&& acc.len() <= items.len()
            &&& items.take(acc.len() as int) == acc
            &&& forall|j: int| acc.len() <= j < items.len() ==> (#[trigger] items[j]).wf()
            &&& encode_items(items, items.len()) == encode_items(items, acc.len()) + s.subrange(
                pos,
                end - 1,
            )
        }),
    decreases s.len() - pos, 1nat,
{
    let (items, end) = parse_items(s, pos, true, acc)->0;
    if s[pos] == END {
        assert(items.take(acc.len() as int) =~= acc);
        assert(encode_items(items, items.len()) =~= encode_items(items, acc.len()) + s.subrange(
            pos,
            end - 1,
        ));
    } else {
        let (item, next) = parse_value(s, pos, true)->0;
        lemma_parse_strict(s, pos);
        let more = acc.push(item);
        lemma_parse_strict_items(s, next, more);
        assert(items.take(more.len() as int)[acc.len() as int] == item);
        assert(items.take(acc.len() as int) =~= items.take(more.len() as int).take(
            acc.len() as int,
        ));
        assert(more.take(acc.len() as int) =~= acc);
        assert forall|j: int| acc.len() <= j < items.len() implies (#[trigger] items[j]).wf() by {
            if j == acc.len() {
                assert(items[j] == item);
            }
        }
        assert(encode_items(items, more.len()) == encode_items(items, acc.len()) + encode(item));
        assert(encode_items(items, items.len()) =~= encode_items(items, acc.len()) + s.subrange(
            pos,
            end - 1,
        ));
    }
}

/// Entries that are read strictly have increasing keys and well-formed values
/// and were written as the bytes they were read from.
pub proof fn lemma_parse_strict_entries(s: Seq<u8>, pos: int, acc: Seq<(Seq<u8>, Bencode)>)
    requires
        parse_entries(s, pos, true, acc) is Some,
        keys_increase(acc),
    ensures
        ({
            let (entries, end) = parse_entries(s, pos, true, acc)->0;
            &&& pos < end <= s.len()
            &&& s[end - 1] == END
            &&& acc.len() <= entries.len()
            &&& entries.take(acc.len() as int) == acc
            &&& keys_increase(entries)
            &&& forall|j: int| acc.len() <= j < entries.len() ==> (#[trigger] entries[j]).1.wf()
            &&& encode_entries(entries, entries.len()) == encode_entries(entries, acc.len())
                + s.subrange(pos, end - 1)
        }),
    decreases s.len() - pos, 1nat,
{
    let (entries, end) = parse_entries(s, pos, true, acc)->0;
    if s[pos] == END {
        assert(entries.take(acc.len() as int) =~= acc);
        assert(encode_entries(entries, entries.len()) =~= encode_entries(entries, acc.len())
            + s.subrange(pos, end - 1));
    } else {
        let (key, mid) = parse_string(s, pos, true)->0;
        let (value, next) = parse_value(s, mid, true)->0;
        lemma_strict_string(s, pos);
        lemma_parse_strict(s, mid);
        let more = acc.push((key, value));
        assert(dict_insert(acc, key, value) =~= more);
        assert forall|i: int, j: int| 0 <= i < j < more.len() implies key_less(
            #[trigger] more[i].0,
            #[trigger] more[j].0,
        ) by {
            if j == acc.len() && i < acc.len() - 1 {
                assert(key_less(acc[i].0, acc[acc.len() - 1].0));
                lemma_key_less_transitive(acc[i].0, acc.last().0, key);
            }
        }
        lemma_parse_strict_entries(s, next, more);
        assert(entries.take(more.len() as int)[acc.len() as int] == (key, value));
        assert(entries.take(acc.len() as int) =~= entries.take(more.len() as int).take(
            acc.len() as int,
        ));
        assert(more.take(acc.len() as int) =~= acc);
        assert forall|j: int| acc.len() <= j < entries.len() implies (
        #[trigger] entries[j]).1.wf() by {
            if j == acc.len() {
                assert(entries[j] == (key, value));
            }
        }
        assert(encode_entries(entries, more.len()) == encode_entries(entries, acc.len())
            + encode_bytes(key) + encode(value));
        assert(encode_entries(entries, entries.len()) =~= encode_entries(entries, acc.len())
            + s.subrange(pos, end - 1));
    }
}

/// Canonical bytes that are decoded and written again are the same bytes.
pub proof fn lemma_encode_decode(b: Seq<u8>)
    requires
        canonical(b),
    ensures
        decode(b) is Some,
        decode(b)->0.wf(),
        encode(decode(b)->0) == b,
{
    let (v, end) = parse_value(b, 0, true)->0;
    lemma_parse_strict(b, 0);
    assert(b.subrange(0, b.len() as int) =~= b);
    lemma_parse_encoded(v, b, 0, false);
}

/// The keys of a well-formed dictionary are written in strictly increasing
/// lexicographic order: each key stands in the written dictionary behind all
/// the keys that come before it in that order, and before all that come after.
pub proof fn lemma_encoded_key_order(entries: Seq<(Seq<u8>, Bencode)>, i: int, j: int)
    requires
        Bencode::Dictionary(entries).wf(),
        0 <= i < j < entries.len(),
    ensures
        key_less(entries[i].0, entries[j].0),
        encode_entries(entries, i as nat).len() < encode_entries(entries, j as nat).len(),
        holds_at(
            encode(Bencode::Dictionary(entries)),
            1 + encode_entries(entries, i as nat).len() as int,
            encode_bytes(entries[i].0),
        ),
        holds_at(
            encode(Bencode::Dictionary(entries)),
            1 + encode_entries(entries, j as nat).len() as int,
            encode_bytes(entries[j].0),
        ),
{
    let whole = encode(Bencode::Dictionary(entries));
    let body = encode_entries(entries, entries.len());
    assert(whole.subrange(0, whole.len() as int) =~= whole);
    lemma_holds_split(whole, 0, seq![DICTIONARY] + body, seq![END]);
    lemma_holds_split(whole, 0, seq![DICTIONARY], body);
    lemma_key_at(entries, i, whole);
    lemma_key_at(entries, j, whole);
    lemma_encode_entries_prefix(entries, (i + 1) as nat, j as nat);
    lemma_encode_first(Bencode::ByteString(entries[i].0));
}

/// The place of the key of entry `i` in a written dictionary.
proof fn lemma_key_at(entries: Seq<(Seq<u8>, Bencode)>, i: int, whole: Seq<u8>)
    requires
        0 <= i < entries.len(),
        holds_at(whole, 1, encode_entries(entries, entries.len())),
    ensures
        holds_at(
            whole,
            1 + encode_entries(entries, i as nat).len() as int,
            encode_bytes(entries[i].0),
        ),
{
    let all = encode_entries(entries, entries.len());
    let next = encode_entries(entries, (i + 1) as nat);
    lemma_encode_entries_prefix(entries, (i + 1) as nat, entries.len());
    lemma_holds_part(whole, 1, all, 0, next.len() as int);
    lemma_holds_split(
        whole,
        1,
        encode_entries(entries, i as nat) + encode_bytes(entries[i].0),
        encode(entries[i].1),
    );
    lemma_holds_split(whole, 1, encode_entries(entries, i as nat), encode_bytes(entries[i].0));
}

} // verus!
