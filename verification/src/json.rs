//! Bencoded values as JSON trees, for showing them.
use crate::bencode::{
    entries_view, items_view, lemma_view_dictionary, lemma_view_list, BencodeValue,
};
use crate::grammar::Bencode;
use crate::text::utf8_text;
use vstd::prelude::*;
use vstd::string::StringExecFns;
use vstd::utf8::{decode_utf8, valid_utf8};

verus! {

/// A JSON value, as far as bencode needs it: text, whole numbers, arrays, and
/// objects with their members in order.
#[derive(Debug)]
pub enum Json {
    String(String),
    Number(i64),
    Array(Vec<Json>),
    Object(Vec<(String, Json)>),
}

/// A JSON value as a mathematical tree.
pub enum JsonView {
    String(Seq<char>),
    Number(int),
    Array(Seq<JsonView>),
    Object(Seq<(Seq<char>, JsonView)>),
}

impl View for Json {
    type V = JsonView;

    open spec fn view(&self) -> JsonView
        decreases self,
    {
        match self {
            Json::String(text) => JsonView::String(text@),
            Json::Number(n) => JsonView::Number(*n as int),
            Json::Array(items) => JsonView::Array(
                Seq::new(
                    items.len() as nat,
                    |i: int|
                        if 0 <= i < items.len() {
                            items[i]@
                        } else {
                            JsonView::Number(0)
                        },
                ),
            ),
            Json::Object(members) => JsonView::Object(
                Seq::new(
                    members.len() as nat,
                    |i: int|
                        (
                            members[i].0@,
                            if 0 <= i < members.len() {
                                members[i].1@
                            } else {
                                JsonView::Number(0)
                            },
                        ),
                ),
            ),
        }
    }
}

/// The trees of the items of an array.
pub open spec fn array_view(items: Seq<Json>) -> Seq<JsonView> {
    Seq::new(items.len(), |i: int| items[i]@)
}

/// The names and trees of the members of an object.
pub open spec fn object_view(members: Seq<(String, Json)>) -> Seq<(Seq<char>, JsonView)> {
    Seq::new(members.len(), |i: int| (members[i].0@, members[i].1@))
}

/// The tree of an array holds the trees of its items.
pub proof fn lemma_view_array(items: Vec<Json>)
    ensures
        Json::Array(items)@ == JsonView::Array(array_view(items@)),
{
    assert(Json::Array(items)@->Array_0 =~= array_view(items@));
}

/// The tree of an object holds the names and trees of its members.
pub proof fn lemma_view_object(members: Vec<(String, Json)>)
    ensures
        Json::Object(members)@ == JsonView::Object(object_view(members@)),
{
    assert(Json::Object(members)@->Object_0 =~= object_view(members@));
}

/// A byte string as JSON: its text where it is valid UTF-8, and the array of
/// its bytes as numbers where it is not.
pub open spec fn json_of_bytes(bytes: Seq<u8>) -> JsonView {
    if valid_utf8(bytes) {
        JsonView::String(decode_utf8(bytes))
    } else {
        JsonView::Array(Seq::new(bytes.len(), |i: int| JsonView::Number(bytes[i] as int)))
    }
}

/// A bencoded value as JSON: a byte string as `json_of_bytes` has it, an
/// integer as a number, a list as an array, and a dictionary as an object
/// whose names are the keys. `None` where a key of a dictionary is not valid
/// UTF-8, for the names of an object have to be text.
pub open spec fn json_of(v: Bencode) -> Option<JsonView>
    decreases v, 0nat,
{
    match v {
        Bencode::ByteString(bytes) => Some(json_of_bytes(bytes)),
        Bencode::Integer(n) => Some(JsonView::Number(n)),
        Bencode::List(items) => match json_of_items(items, items.len()) {
            Some(array) => Some(JsonView::Array(array)),
            None => None,
        },
        Bencode::Dictionary(entries) => match json_of_entries(entries, entries.len()) {
            Some(members) => Some(JsonView::Object(members)),
            None => None,
        },
    }
}

/// The first `n` items of a list as JSON, or `None` where one of them has no
/// JSON.
pub open spec fn json_of_items(items: Seq<Bencode>, n: nat) -> Option<Seq<JsonView>>
    decreases items, n,
{
    if n == 0 || n > items.len() {
        Some(Seq::empty())
    } else {
        match (json_of_items(items, (n - 1) as nat), json_of(items[n - 1])) {
            (Some(front), Some(last)) => Some(front.push(last)),
            _ => None,
        }
    }
}

/// The first `n` entries of a dictionary as the members of an object, or
/// `None` where a key is not valid UTF-8 or a value has no JSON.
pub open spec fn json_of_entries(entries: Seq<(Seq<u8>, Bencode)>, n: nat) -> Option<
    Seq<(Seq<char>, JsonView)>,
>
    decreases entries, n,
{
    if n == 0 || n > entries.len() {
        Some(Seq::empty())
    } else {
        match (json_of_entries(entries, (n - 1) as nat), json_of(entries[n - 1].1)) {
            (Some(front), Some(last)) => if valid_utf8(entries[n - 1].0) {
                Some(front.push((decode_utf8(entries[n - 1].0), last)))
            } else {
                None
            },
            _ => None,
        }
    }
}

/// A byte string as JSON.
fn bytes_into_json(bytes: &[u8]) -> (json: Json)
    ensures
        json@ == json_of_bytes(bytes@),
{
    match utf8_text(bytes) {
        Some(text) => Json::String(String::from_str(text)),
        None => {
            let mut numbers: Vec<Json> = Vec::new();
            let mut i: usize = 0;
            while i < bytes.len()
                invariant
                    i <= bytes.len(),
                    numbers.len() == i,
                    forall|j: int|
                        0 <= j < i ==> (#[trigger] numbers[j])@ == JsonView::Number(
                            bytes[j] as int,
                        ),
                decreases bytes.len() - i,
            {
                numbers.push(Json::Number(bytes[i] as i64));
                i += 1;
            }
            proof {
                lemma_view_array(numbers);
                assert(array_view(numbers@) =~= Seq::new(
                    bytes@.len(),
                    |i: int| JsonView::Number(bytes@[i] as int),
                ));
            }
            Json::Array(numbers)
        },
    }
}

impl BencodeValue {
    /// The value as JSON: a byte string as text where it is valid UTF-8 and as
    /// the array of its bytes where it is not, an integer as a number, a list
    /// as an array, a dictionary as an object with its keys as names, in the
    /// order of the keys.
    ///
    /// `None`, and only then, where a key of a dictionary in the value is not
    /// valid UTF-8.
    pub fn into_json(&self) -> (res: Option<Json>)
        ensures
            match res {
                Some(json) => json_of(self@) == Some(json@),
                None => json_of(self@) is None,
            },
        decreases self,
    {
        match self {
            BencodeValue::ByteString(bytes) => Some(bytes_into_json(bytes.as_slice())),
            BencodeValue::Integer(n) => Some(Json::Number(*n)),
            BencodeValue::List(items) => {
                proof {
                    lemma_view_list(*items);
                }
                let ghost trees = items_view(items@);
                let mut array: Vec<Json> = Vec::new();
                let mut i: usize = 0;
                assert(array_view(array@) =~= Seq::<JsonView>::empty());
                while i < items.len()
                    invariant
                        i <= items.len(),
                        *self == BencodeValue::List(*items),
                        trees == items_view(items@),
                        self@ == Bencode::List(trees),
                        json_of_items(trees, i as nat) == Some(array_view(array@)),
                    decreases items.len() - i,
                {
                    assert(self->List_0 == *items);
                    assert(decreases_to!(*self => self->List_0));
                    assert(decreases_to!(*items => items[i as int]));
                    match items[i].into_json() {
                        Some(json) => {
                            assert(array_view(array@.push(json)) =~= array_view(array@).push(
                                json@,
                            ));
                            array.push(json);
                        },
                        None => {
                            proof {
                                assert(trees[i as int] == items[i as int]@);
                                assert(json_of_items(trees, (i + 1) as nat) is None);
                                lemma_json_items_none(trees, (i + 1) as nat, items.len() as nat);
                            }
                            return None;
                        },
                    }
                    i += 1;
                }
                proof {
                    lemma_view_array(array);
                }
                Some(Json::Array(array))
            },
            BencodeValue::Dictionary(entries) => {
                proof {
                    lemma_view_dictionary(*entries);
                }
                let ghost trees = entries_view(entries@);
                let mut members: Vec<(String, Json)> = Vec::new();
                let mut i: usize = 0;
                assert(object_view(members@) =~= Seq::<(Seq<char>, JsonView)>::empty());
                while i < entries.len()
                    invariant
                        i <= entries.len(),
                        *self == BencodeValue::Dictionary(*entries),
                        trees == entries_view(entries@),
                        self@ == Bencode::Dictionary(trees),
                        json_of_entries(trees, i as nat) == Some(object_view(members@)),
                    decreases entries.len() - i,
                {
                    assert(self->Dictionary_0 == *entries);
                    assert(decreases_to!(*self => self->Dictionary_0));
                    assert(decreases_to!(*entries => entries[i as int]));
                    assert(decreases_to!(entries[i as int] => entries[i as int].1));
                    let name = utf8_text(entries[i].0.as_slice());
                    let value = entries[i].1.into_json();
                    match (name, value) {
                        (Some(name), Some(json)) => {
                            let name = String::from_str(name);
                            assert(object_view(members@.push((name, json))) =~= object_view(
                                members@,
                            ).push((name@, json@)));
                            members.push((name, json));
                        },
                        _ => {
                            proof {
                                assert(trees[i as int] == (
                                    entries[i as int].0@,
                                    entries[i as int].1@,
                                ));
                                assert(json_of_entries(trees, (i + 1) as nat) is None);
                                lemma_json_entries_none(
                                    trees,
                                    (i + 1) as nat,
                                    entries.len() as nat,
                                );
                            }
                            return None;
                        },
                    }
                    i += 1;
                }
                proof {
                    lemma_view_object(members);
                }
                Some(Json::Object(members))
            },
        }
    }
}

/// Where the first `k` items of a list have no JSON, no more of them have.
proof fn lemma_json_items_none(items: Seq<Bencode>, k: nat, n: nat)
    requires
        k <= n <= items.len(),
        json_of_items(items, k) is None,
    ensures
        json_of_items(items, n) is None,
    decreases n,
{
    if k < n {
        lemma_json_items_none(items, k, (n - 1) as nat);
    }
}

/// Where the first `k` entries of a dictionary have no JSON, no more of them
/// have.
proof fn lemma_json_entries_none(entries: Seq<(Seq<u8>, Bencode)>, k: nat, n: nat)
    requires
        k <= n <= entries.len(),
        json_of_entries(entries, k) is None,
    ensures
        json_of_entries(entries, n) is None,
    decreases n,
{
    if k < n {
        lemma_json_entries_none(entries, k, (n - 1) as nat);
    }
}

} // verus!
