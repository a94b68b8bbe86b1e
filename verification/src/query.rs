//! The query of a tracker URL, which the `url` crate behind `reqwest::Url`
//! parses and writes.
use vstd::prelude::*;
use vstd::utf8::encode_utf8;

verus! {

/// The most bytes that a URL, a name or a value may have to be handed to the
/// URL parser: 16 MiB, far above any tracker URL and low enough for the
/// 32-bit positions that the parser keeps.
pub const MAX_TEXT: usize = 0x100_0000;

/// The most pairs that are added to a query in one call.
pub const MAX_PAIRS: usize = 8;

/// The text of the URL `base` after the name-value pairs `pairs` have been
/// added to its query in form encoding, as `reqwest::Url` computes it, or
/// `None` where `base` is no URL.
pub uninterp spec fn url_with_query(base: Seq<char>, pairs: Seq<(Seq<char>, Seq<char>)>) -> Option<
    Seq<char>,
>;

/// The names and values of `pairs` as mathematics.
pub open spec fn pairs_view(pairs: Seq<(String, String)>) -> Seq<(Seq<char>, Seq<char>)> {
    Seq::new(pairs.len(), |i: int| (pairs[i].0@, pairs[i].1@))
}

/// Whether `text` is short enough for the URL parser.
pub open spec fn text_fits(text: Seq<char>) -> bool {
    encode_utf8(text).len() <= MAX_TEXT
}

/// Whether the pairs are few and short enough for the URL parser.
pub open spec fn pairs_fit(pairs: Seq<(Seq<char>, Seq<char>)>) -> bool {
    &&& pairs.len() <= MAX_PAIRS
    &&& forall|i: int|
        0 <= i < pairs.len() ==> text_fits((#[trigger] pairs[i]).0) && text_fits(pairs[i].1)
}

/// Calls `Url::parse` on `base`, adds `pairs` to the query with
/// `query_pairs_mut` and `extend_pairs`, and gives the text of the URL. The
/// result is believed to be a function of the texts handed in, and `None`
/// exactly where `Url::parse` rejects `base`. The bounds keep the text below
/// the 4 GiB at which the crate's position arithmetic would panic.
#[verifier::external_body]
pub(crate) fn extend_url(base: &str, pairs: &Vec<(String, String)>) -> (res: Option<String>)
    requires
        text_fits(base@),
        pairs_fit(pairs_view(pairs@)),
    ensures
        match res {
            Some(text) => url_with_query(base@, pairs_view(pairs@)) == Some(text@),
            None => url_with_query(base@, pairs_view(pairs@)) is None,
        },
{
    match reqwest::Url::parse(base) {
        Ok(mut url) => {
            url.query_pairs_mut().extend_pairs(pairs);
            Some(url.to_string())
        },
        Err(_) => None,
    }
}

} // verus!
