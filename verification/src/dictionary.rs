//! The entries of a dictionary, kept in the order of their keys.
use crate::bencode::{entries_view, BencodeValue};
use crate::grammar::{dict_get, dict_insert, dict_remove, key_less, keys_increase, Bencode};
use crate::order::{bytes_equal, bytes_less, lemma_key_less_transitive, lemma_key_order};
use vstd::prelude::*;
use vstd::slice::slice_to_vec;

verus! {

/// Whether every value of `entries` is well formed.
pub open spec fn values_wf(entries: Seq<(Seq<u8>, Bencode)>) -> bool {
    forall|i: int| 0 <= i < entries.len() ==> (#[trigger] entries[i]).1.wf()
}

/// Where `key` belongs among `entries`, given that every entry from `i` on has
/// a greater key: `dict_insert` puts it at `i` if the key before is smaller,
/// and replaces the entry before if that has the same key.
pub proof fn lemma_dict_insert_at(
    entries: Seq<(Seq<u8>, Bencode)>,
    key: Seq<u8>,
    value: Bencode,
    i: int,
)
    requires
        0 <= i <= entries.len(),
        forall|j: int| i <= j < entries.len() ==> key_less(key, #[trigger] entries[j].0),
        i == 0 || key_less(entries[i - 1].0, key) || entries[i - 1].0 == key,
    ensures
        i > 0 && entries[i - 1].0 == key ==> dict_insert(entries, key, value) == entries.update(
            i - 1,
            (key, value),
        ),
        i == 0 || entries[i - 1].0 != key ==> dict_insert(entries, key, value) == entries.insert(
            i,
            (key, value),
        ),
    decreases entries.len() - i,
{
    if entries.len() == 0 {
        assert(seq![(key, value)] =~= entries.insert(0, (key, value)));
    } else if i == entries.len() {
        lemma_key_order(entries.last().0, key);
        if entries.last().0 == key {
            assert(entries.drop_last().push((key, value)) =~= entries.update(i - 1, (key, value)));
        } else {
            assert(entries.push((key, value)) =~= entries.insert(i, (key, value)));
        }
    } else {
        let last = entries.last();
        let front = entries.drop_last();
        assert(key_less(key, entries[entries.len() - 1].0));
        lemma_key_order(last.0, key);
        assert forall|j: int| i <= j < front.len() implies key_less(key, #[trigger] front[j].0) by {
            assert(front[j] == entries[j]);
        }
        if i > 0 {
            assert(front[i - 1] == entries[i - 1]);
        }
        lemma_dict_insert_at(front, key, value, i);
        if i > 0 && entries[i - 1].0 == key {
            assert(front.update(i - 1, (key, value)).push(last) =~= entries.update(
                i - 1,
                (key, value),
            ));
        } else {
            assert(front.insert(i, (key, value)).push(last) =~= entries.insert(i, (key, value)));
        }
    }
}

/// `dict_insert` keeps a dictionary well formed.
pub proof fn lemma_dict_insert_wf(entries: Seq<(Seq<u8>, Bencode)>, key: Seq<u8>, value: Bencode)
    requires
        keys_increase(entries),
        values_wf(entries),
        value.wf(),
    ensures
        keys_increase(dict_insert(entries, key, value)),
        values_wf(dict_insert(entries, key, value)),
        dict_insert(entries, key, value).len() >= 1,
    decreases entries.len(),
{
    let after = dict_insert(entries, key, value);
    if entries.len() == 0 {
    } else if key_less(entries.last().0, key) {
        assert forall|i: int, j: int| 0 <= i < j < after.len() implies key_less(
            #[trigger] after[i].0,
            #[trigger] after[j].0,
        ) by {
            if j == entries.len() && i < entries.len() - 1 {
                assert(key_less(entries[i].0, entries[entries.len() - 1].0));
                lemma_key_less_transitive(entries[i].0, entries.last().0, key);
            }
        }
    } else if entries.last().0 == key {
        assert forall|i: int, j: int| 0 <= i < j < after.len() implies key_less(
            #[trigger] after[i].0,
            #[trigger] after[j].0,
        ) by {
            assert(key_less(entries[i].0, entries[j].0));
        }
        assert forall|i: int| 0 <= i < after.len() implies (#[trigger] after[i]).1.wf() by {
            if i < after.len() - 1 {
                assert(entries[i].1.wf());
            }
        }
    } else {
        let last = entries.last();
        let front = entries.drop_last();
        assert forall|i: int, j: int| 0 <= i < j < front.len() implies key_less(
            #[trigger] front[i].0,
            #[trigger] front[j].0,
        ) by {
            assert(key_less(entries[i].0, entries[j].0));
        }
        assert forall|i: int| 0 <= i < front.len() implies (#[trigger] front[i]).1.wf() by {
            assert(entries[i].1.wf());
        }
        lemma_dict_insert_wf(front, key, value);
        lemma_dict_insert_keys(front, key, value);
        lemma_key_order(last.0, key);
        let inner = dict_insert(front, key, value);
        assert forall|i: int, j: int| 0 <= i < j < after.len() implies key_less(
            #[trigger] after[i].0,
            #[trigger] after[j].0,
        ) by {
            if j == after.len() - 1 {
                assert(after[i] == inner[i]);
                if inner[i].0 != key {
                    let k = choose|k: int| 0 <= k < front.len() && front[k].0 == inner[i].0;
                    assert(key_less(entries[k].0, entries[entries.len() - 1].0));
                }
            } else {
                assert(after[i] == inner[i] && after[j] == inner[j]);
            }
        }
        assert forall|i: int| 0 <= i < after.len() implies (#[trigger] after[i]).1.wf() by {
            if i < after.len() - 1 {
                assert(after[i] == inner[i]);
            } else {
                assert(entries[entries.len() - 1].1.wf());
            }
        }
    }
}

/// Every key of a dictionary after `dict_insert` is the new key or one of the
/// keys that it held before.
pub proof fn lemma_dict_insert_keys(entries: Seq<(Seq<u8>, Bencode)>, key: Seq<u8>, value: Bencode)
    ensures
        forall|i: int|
            0 <= i < dict_insert(entries, key, value).len() ==> (#[trigger] dict_insert(
                entries,
                key,
                value,
            )[i]).0 == key || exists|k: int|
                0 <= k < entries.len() && (#[trigger] entries[k]).0 == dict_insert(
                    entries,
                    key,
                    value,
                )[i].0,
    decreases entries.len(),
{
    let after = dict_insert(entries, key, value);
    if entries.len() == 0 {
    } else if key_less(entries.last().0, key) {
        assert forall|i: int| 0 <= i < after.len() implies (#[trigger] after[i]).0 == key
            || exists|k: int| 0 <= k < entries.len() && (#[trigger] entries[k]).0 == after[i].0 by {
            if i < entries.len() {
                assert(entries[i].0 == after[i].0);
            }
        }
    } else if entries.last().0 == key {
        assert forall|i: int| 0 <= i < after.len() implies (#[trigger] after[i]).0 == key
            || exists|k: int| 0 <= k < entries.len() && (#[trigger] entries[k]).0 == after[i].0 by {
            if i < entries.len() - 1 {
                assert(entries[i].0 == after[i].0);
            }
        }
    } else {
        let front = entries.drop_last();
        let inner = dict_insert(front, key, value);
        lemma_dict_insert_keys(front, key, value);
        assert forall|i: int| 0 <= i < after.len() implies (#[trigger] after[i]).0 == key
            || exists|k: int| 0 <= k < entries.len() && (#[trigger] entries[k]).0 == after[i].0 by {
            if i < after.len() - 1 {
                assert(after[i] == inner[i]);
                if inner[i].0 != key {
                    let k = choose|k: int| 0 <= k < front.len() && front[k].0 == inner[i].0;
                    assert(entries[k].0 == after[i].0);
                }
            } else {
                assert(entries[entries.len() - 1].0 == after[i].0);
            }
        }
    }
}

/// An entry that `dict_get` finds is one of the entries: the place of one
/// entry with the key and the value.
pub proof fn lemma_get_place(entries: Seq<(Seq<u8>, Bencode)>, key: Seq<u8>) -> (i: int)
    requires
        dict_get(entries, key) is Some,
    ensures
        0 <= i < entries.len(),
        entries[i] == (key, dict_get(entries, key)->0),
    decreases entries.len(),
{
    if entries.last().0 == key {
        entries.len() - 1
    } else {
        let i = lemma_get_place(entries.drop_last(), key);
        assert(entries.drop_last()[i] == entries[i]);
        i
    }
}

/// Removing a key that is not there changes nothing.
pub proof fn lemma_remove_absent(entries: Seq<(Seq<u8>, Bencode)>, key: Seq<u8>)
    requires
        dict_get(entries, key) is None,
    ensures
        dict_remove(entries, key) == entries,
    decreases entries.len(),
{
    if entries.len() > 0 {
        lemma_remove_absent(entries.drop_last(), key);
        assert(entries.drop_last().push(entries.last()) =~= entries);
    }
}

/// What is left after a key has been removed: entries of the dictionary, in
/// their order, with every other key and its value; where the keys increase,
/// none is left with the key.
pub proof fn lemma_remove_keeps(entries: Seq<(Seq<u8>, Bencode)>, key: Seq<u8>)
    ensures
        keys_increase(entries) ==> dict_get(dict_remove(entries, key), key) is None,
        forall|other: Seq<u8>|
            other != key ==> #[trigger] dict_get(dict_remove(entries, key), other) == dict_get(
                entries,
                other,
            ),
        forall|i: int|
            0 <= i < dict_remove(entries, key).len() ==> exists|j: int|
                0 <= j < entries.len() && #[trigger] entries[j] == (#[trigger] dict_remove(
                    entries,
                    key,
                )[i]),
        keys_increase(entries) ==> keys_increase(dict_remove(entries, key)),
        values_wf(entries) ==> values_wf(dict_remove(entries, key)),
    decreases entries.len(),
{
    let after = dict_remove(entries, key);
    if entries.len() > 0 {
        let front = entries.drop_last();
        let last = entries.last();
        let inner = dict_remove(front, key);
        if keys_increase(entries) {
            assert forall|a: int, b: int| 0 <= a < b < front.len() implies key_less(
                #[trigger] front[a].0,
                #[trigger] front[b].0,
            ) by {
                assert(key_less(entries[a].0, entries[b].0));
            }
        }
        if values_wf(entries) {
            assert forall|i: int| 0 <= i < front.len() implies (#[trigger] front[i]).1.wf() by {
                assert(entries[i].1.wf());
            }
        }
        if last.0 == key {
            assert forall|i: int| 0 <= i < after.len() implies exists|j: int|
                0 <= j < entries.len() && #[trigger] entries[j] == (#[trigger] after[i]) by {
                assert(entries[i] == after[i]);
            }
            if keys_increase(entries) && dict_get(front, key) is Some {
                let i = lemma_get_place(front, key);
                assert(key_less(entries[i].0, entries[entries.len() - 1].0));
                lemma_key_order(key, key);
            }
        } else {
            lemma_remove_keeps(front, key);
            assert(after.drop_last() =~= inner);
            assert(after.last() == last);
            assert forall|other: Seq<u8>| other != key implies #[trigger] dict_get(after, other)
                == dict_get(entries, other) by {
                assert(dict_get(inner, other) == dict_get(front, other));
            }
            assert forall|i: int| 0 <= i < after.len() implies exists|j: int|
                0 <= j < entries.len() && #[trigger] entries[j] == (#[trigger] after[i]) by {
                if i < inner.len() {
                    let j = choose|j: int| 0 <= j < front.len() && front[j] == inner[i];
                    assert(entries[j] == after[i]);
                } else {
                    assert(entries[entries.len() - 1] == after[i]);
                }
            }
            if keys_increase(entries) {
                assert forall|a: int, b: int| 0 <= a < b < after.len() implies key_less(
                    #[trigger] after[a].0,
                    #[trigger] after[b].0,
                ) by {
                    if b < inner.len() {
                        assert(after[a] == inner[a] && after[b] == inner[b]);
                    } else {
                        let j = choose|j: int| 0 <= j < front.len() && front[j] == inner[a];
                        assert(key_less(entries[j].0, entries[entries.len() - 1].0));
                    }
                }
            }
            if values_wf(entries) {
                assert forall|i: int| 0 <= i < after.len() implies (#[trigger] after[i]).1.wf() by {
                    if i < inner.len() {
                        assert(after[i] == inner[i]);
                    } else {
                        assert(entries[entries.len() - 1].1.wf());
                    }
                }
            }
        }
    }
}

/// In a dictionary whose keys increase, an entry that is removed and put in
/// again is where it was.
pub proof fn lemma_insert_removed(entries: Seq<(Seq<u8>, Bencode)>, key: Seq<u8>)
    requires
        keys_increase(entries),
        dict_get(entries, key) is Some,
    ensures
        dict_insert(dict_remove(entries, key), key, dict_get(entries, key)->0) == entries,
    decreases entries.len(),
{
    let value = dict_get(entries, key)->0;
    let front = entries.drop_last();
    let last = entries.last();
    assert forall|a: int, b: int| 0 <= a < b < front.len() implies key_less(
        #[trigger] front[a].0,
        #[trigger] front[b].0,
    ) by {
        assert(key_less(entries[a].0, entries[b].0));
    }
    if last.0 == key {
        if front.len() > 0 {
            assert(key_less(entries[front.len() - 1].0, entries[entries.len() - 1].0));
        }
        assert(dict_insert(front, key, value) =~= entries);
    } else {
        let i = lemma_get_place(front, key);
        assert(key_less(entries[i].0, entries[entries.len() - 1].0));
        lemma_key_order(last.0, key);
        lemma_insert_removed(front, key);
        let without = dict_remove(front, key).push(last);
        assert(without.last() == last);
        assert(without.drop_last() =~= dict_remove(front, key));
        assert(dict_insert(without, key, value) =~= entries);
    }
}

/// After `dict_insert` the key has the value, and every other key what it
/// had.
pub proof fn lemma_get_inserted(
    entries: Seq<(Seq<u8>, Bencode)>,
    key: Seq<u8>,
    value: Bencode,
    other: Seq<u8>,
)
    ensures
        dict_get(dict_insert(entries, key, value), key) == Some(value),
        other != key ==> dict_get(dict_insert(entries, key, value), other) == dict_get(
            entries,
            other,
        ),
    decreases entries.len(),
{
    let after = dict_insert(entries, key, value);
    if entries.len() == 0 {
        assert(after.drop_last() =~= entries);
    } else if key_less(entries.last().0, key) {
        assert(after.drop_last() =~= entries);
    } else if entries.last().0 == key {
        assert(after.drop_last() =~= entries.drop_last());
    } else {
        lemma_get_inserted(entries.drop_last(), key, value, other);
        assert(after.drop_last() =~= dict_insert(entries.drop_last(), key, value));
    }
}

/// A key that was not there, put in and removed again, leaves the entries
/// as they were.
pub proof fn lemma_remove_inserted(entries: Seq<(Seq<u8>, Bencode)>, key: Seq<u8>, value: Bencode)
    requires
        dict_get(entries, key) is None,
    ensures
        dict_remove(dict_insert(entries, key, value), key) == entries,
    decreases entries.len(),
{
    let after = dict_insert(entries, key, value);
    if entries.len() == 0 {
        assert(after.drop_last() =~= entries);
    } else if key_less(entries.last().0, key) {
        assert(after.drop_last() =~= entries);
    } else {
        lemma_remove_inserted(entries.drop_last(), key, value);
        assert(after.drop_last() =~= dict_insert(entries.drop_last(), key, value));
        assert(entries.drop_last().push(entries.last()) =~= entries);
    }
}

/// Where `key` belongs among `entries`: every entry from the place returned
/// on has a greater key, and the flag says whether the entry before it has
/// this very key.
fn find_slot(entries: &Vec<(Vec<u8>, BencodeValue)>, key: &[u8]) -> (res: (usize, bool))
    ensures
        res.0 <= entries.len(),
        forall|j: int| res.0 <= j < entries.len() ==> key_less(key@, #[trigger] entries[j].0@),
        res.1 ==> res.0 > 0 && entries[res.0 - 1].0@ == key@,
        !res.1 ==> res.0 == 0 || (key_less(entries[res.0 - 1].0@, key@) && entries[res.0
            - 1].0@ != key@),
{
    let mut i: usize = entries.len();
    while i > 0
        invariant
            i <= entries.len(),
            forall|j: int| i <= j < entries.len() ==> key_less(key@, #[trigger] entries[j].0@),
        decreases i,
    {
        proof {
            lemma_key_order(entries[i - 1].0@, key@);
        }
        if bytes_less(entries[i - 1].0.as_slice(), key) {
            return (i, false);
        }
        if bytes_equal(entries[i - 1].0.as_slice(), key) {
            return (i, true);
        }
        i -= 1;
    }
    (i, false)
}

/// Gives `key` the value `value` in the entries of a dictionary: an entry with
/// that key is replaced, a new key takes its place in the order of the keys.
/// Entries that were well formed before are well formed after.
pub fn insert_entry(entries: &mut Vec<(Vec<u8>, BencodeValue)>, key: Vec<u8>, value: BencodeValue)
    ensures
        entries_view(final(entries)@) == dict_insert(entries_view(old(entries)@), key@, value@),
        keys_increase(entries_view(old(entries)@)) && values_wf(entries_view(old(entries)@))
            && value.wf() ==> keys_increase(entries_view(final(entries)@)) && values_wf(
            entries_view(final(entries)@),
        ),
{
    let (slot, found) = find_slot(entries, key.as_slice());
    let ghost before = entries_view(entries@);
    proof {
        if keys_increase(before) && values_wf(before) && value.wf() {
            lemma_dict_insert_wf(before, key@, value@);
        }
        assert forall|j: int| slot <= j < before.len() implies key_less(
            key@,
            #[trigger] before[j].0,
        ) by {
            assert(key_less(key@, entries[j].0@));
        }
        lemma_dict_insert_at(before, key@, value@, slot as int);
    }
    if found {
        entries.set(slot - 1, (key, value));
        assert(entries_view(entries@) =~= before.update(slot - 1, (key@, value@)));
    } else {
        entries.insert(slot, (key, value));
        assert(entries_view(entries@) =~= before.insert(slot as int, (key@, value@)));
    }
}

/// The value that the entries of a dictionary hold for `key`, if they hold
/// one.
pub fn get_entry<'a>(entries: &'a Vec<(Vec<u8>, BencodeValue)>, key: &[u8]) -> (res: Option<
    &'a BencodeValue,
>)
    ensures
        match res {
            Some(value) => dict_get(entries_view(entries@), key@) == Some(value@),
            None => dict_get(entries_view(entries@), key@) is None,
        },
{
    let ghost all = entries_view(entries@);
    let mut i: usize = entries.len();
    assert(all.take(i as int) =~= all);
    while i > 0
        invariant
            i <= entries.len(),
            all == entries_view(entries@),
            dict_get(all, key@) == dict_get(all.take(i as int), key@),
        decreases i,
    {
        assert(all.take(i as int).drop_last() =~= all.take(i - 1));
        if bytes_equal(entries[i - 1].0.as_slice(), key) {
            return Some(&entries[i - 1].1);
        }
        i -= 1;
    }
    None
}

/// Removing the key of the last entry that has it removes that entry, and
/// `dict_get` finds the value of that entry.
pub proof fn lemma_remove_at(entries: Seq<(Seq<u8>, Bencode)>, i: int)
    requires
        0 <= i < entries.len(),
        forall|j: int| i < j < entries.len() ==> (#[trigger] entries[j]).0 != entries[i].0,
    ensures
        dict_remove(entries, entries[i].0) == entries.remove(i),
        dict_get(entries, entries[i].0) == Some(entries[i].1),
    decreases entries.len(),
{
    let front = entries.drop_last();
    if i == entries.len() - 1 {
        assert(entries.remove(i) =~= front);
    } else {
        assert(entries[entries.len() - 1].0 != entries[i].0);
        assert(front[i] == entries[i]);
        assert forall|j: int| i < j < front.len() implies (#[trigger] front[j]).0
            != front[i].0 by {
            assert(front[j] == entries[j]);
        }
        lemma_remove_at(front, i);
        assert(front.remove(i).push(entries.last()) =~= entries.remove(i));
    }
}

/// Takes the entry in which `get_entry` finds the value of `key` out of the
/// entries of a dictionary, and gives its value; `None`, and nothing changed,
/// where no entry has the key.
pub fn take_entry(entries: &mut Vec<(Vec<u8>, BencodeValue)>, key: &[u8]) -> (res: Option<
    BencodeValue,
>)
    ensures
        entries_view(final(entries)@) == dict_remove(entries_view(old(entries)@), key@),
        match res {
            Some(value) => dict_get(entries_view(old(entries)@), key@) == Some(value@),
            None => dict_get(entries_view(old(entries)@), key@) is None,
        },
{
    let ghost before = entries_view(entries@);
    let mut i: usize = entries.len();
    while i > 0
        invariant
            i <= entries.len(),
            entries@ == old(entries)@,
            before == entries_view(entries@),
            forall|j: int| i <= j < entries.len() ==> (#[trigger] before[j]).0 != key@,
        decreases i,
    {
        if bytes_equal(entries[i - 1].0.as_slice(), key) {
            proof {
                lemma_remove_at(before, i - 1);
            }
            let pair = entries.remove(i - 1);
            assert(entries_view(entries@) =~= before.remove(i - 1));
            assert(before[i - 1] == (key@, pair.1@));
            return Some(pair.1);
        }
        i -= 1;
    }
    proof {
        if dict_get(before, key@) is Some {
            let j = lemma_get_place(before, key@);
            assert(before[j].0 != key@);
        }
        lemma_remove_absent(before, key@);
    }
    None
}

/// A copy of the entries of a dictionary.
pub fn copy_entries(entries: &Vec<(Vec<u8>, BencodeValue)>) -> (copy: Vec<(Vec<u8>, BencodeValue)>)
    ensures
        entries_view(copy@) == entries_view(entries@),
{
    let mut copy: Vec<(Vec<u8>, BencodeValue)> = Vec::new();
    let mut i: usize = 0;
    while i < entries.len()
        invariant
            i <= entries.len(),
            copy.len() == i,
            forall|j: int|
                0 <= j < i ==> (#[trigger] copy[j]).0@ == entries[j].0@ && copy[j].1@
                    == entries[j].1@,
        decreases entries.len() - i,
    {
        let key = slice_to_vec(entries[i].0.as_slice());
        let value = entries[i].1.duplicate();
        copy.push((key, value));
        i += 1;
    }
    assert(entries_view(copy@) =~= entries_view(entries@));
    copy
}

} // verus!
