//! What the command line asks for and needs no file or network for.
use crate::bencode::decode_bencoded_value;
use crate::grammar::parse_value;
use crate::json::{json_of, Json, JsonView};
use vstd::prelude::*;
use vstd::utf8::encode_utf8;

verus! {

/// The JSON of the bencoded value that the bytes of `s` start with, or `None`
/// where they start with no value or the value has no JSON.
pub open spec fn decoded_json(s: Seq<u8>) -> Option<JsonView> {
    match parse_value(s, 0, false) {
        Some((v, _)) => json_of(v),
        None => None,
    }
}

/// Decodes the bencoded value that `encoded_value` starts with and gives it
/// as JSON, ready to be shown.
///
/// `None`, and only then, where the text does not start with a bencoded value
/// or a key of a dictionary in the value is not valid UTF-8.
pub fn decode(encoded_value: &String) -> (res: Option<Json>)
    ensures
        match res {
            Some(json) => decoded_json(encode_utf8(encoded_value@)) == Some(json@),
            None => decoded_json(encode_utf8(encoded_value@)) is None,
        },
{
    match decode_bencoded_value(encoded_value.as_str().as_bytes(), 0) {
        Ok((value, _)) => value.into_json(),
        Err(_) => None,
    }
}

} // verus!
