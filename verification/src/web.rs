//! What a URL asks the dashboard for.
use vstd::prelude::*;

use http_types::Url;

use crate::text::{chars_of, spells};
use crate::visualizer::{route, route_of, tick_rate, tick_rate_of, Route};

verus! {

/// What `http_types::Url::parse` and `Url::path` find in a text: nothing if it
/// is no absolute URL, and else its path, percent-encoded.
pub uninterp spec fn url_path_of(url: Seq<char>) -> Option<Seq<char>>;

/// What `http_types::Url::parse` and `Url::query_pairs` find in a text:
/// nothing if it is no absolute URL, and else the keys and values of its query
/// in order, decoded.
pub uninterp spec fn query_pairs_of(url: Seq<char>) -> Option<Seq<(Seq<char>, Seq<char>)>>;

/// A text that may be missing, as a mathematical value.
pub open spec fn maybe_view(text: Option<String>) -> Option<Seq<char>> {
    match text {
        Some(s) => Some(s@),
        None => None,
    }
}

/// Keys and values as mathematical values.
pub open spec fn pairs_view(pairs: Seq<(String, String)>) -> Seq<(Seq<char>, Seq<char>)> {
    Seq::new(pairs.len(), |i: int| (pairs[i].0@, pairs[i].1@))
}

/// Keys and values that may be missing, as mathematical values.
pub open spec fn maybe_pairs_view(pairs: Option<Vec<(String, String)>>) -> Option<
    Seq<(Seq<char>, Seq<char>)>,
> {
    match pairs {
        Some(v) => Some(pairs_view(v@)),
        None => None,
    }
}

/// `Url::parse`, and `Url::path` of the result. What a URL is, is left to
/// `http_types`: the result has the name `url_path_of`, and nothing more is
/// said of it.
#[verifier::external_body]
fn read_url_path(url: &str) -> (r: Option<String>)
    ensures
        maybe_view(r) == url_path_of(url@),
{
    Url::parse(url).ok().map(|u| u.path().to_owned())
}

/// `Url::parse`, and `Url::query_pairs` of the result. What a query is, is
/// left to `http_types`: the result has the name `query_pairs_of`, and nothing
/// more is said of it.
#[verifier::external_body]
fn read_query_pairs(url: &str) -> (r: Option<Vec<(String, String)>>)
    ensures
        maybe_pairs_view(r) == query_pairs_of(url@),
{
    Url::parse(url).ok().map(|u| u.query_pairs().into_owned().collect())
}

/// The value of the first pair whose key is `key`.
pub open spec fn value_in(pairs: Seq<(Seq<char>, Seq<char>)>, key: Seq<char>) -> Option<Seq<char>>
    decreases pairs.len(),
{
    if pairs.len() == 0 {
        None
    } else if pairs[0].0 == key {
        Some(pairs[0].1)
    } else {
        value_in(pairs.drop_first(), key)
    }
}

/// The value of the first pair whose key is `key`.
pub fn query_value(pairs: &Vec<(String, String)>, key: &str) -> (r: Option<String>)
    ensures
        maybe_view(r) == value_in(pairs_view(pairs@), key@),
{
    let ghost all = pairs_view(pairs@);
    let mut i: usize = 0;
    assert(all.skip(0) =~= all);
    while i < pairs.len()
        invariant
            i <= pairs@.len(),
            all == pairs_view(pairs@),
            value_in(all.skip(i as int), key@) == value_in(all, key@),
        decreases pairs@.len() - i,
    {
        assert(all.skip(i as int)[0] == all[i as int]);
        assert(all.skip(i as int).drop_first() =~= all.skip(i + 1));
        if spells(&chars_of(pairs[i].0.as_str()), key) {
            return Some(pairs[i].1.clone());
        }
        i = i + 1;
    }
    None
}

/// The tick rate that a URL names, if it is one that can be set.
pub fn tick_rate_in(url: &str) -> (r: Option<u64>)
    ensures
        r == match query_pairs_of(url@) {
            Some(pairs) => tick_rate_of(value_in(pairs, "value"@)),
            None => None,
        },
{
    match read_query_pairs(url) {
        Some(pairs) => tick_rate(&query_value(&pairs, "value")),
        None => None,
    }
}

/// What a URL asks for, if it is one.
pub fn route_in(url: &str) -> (r: Option<Route>)
    ensures
        r == match url_path_of(url@) {
            Some(path) => Some(route_of(path)),
            None => None,
        },
{
    match read_url_path(url) {
        Some(path) => Some(route(path.as_str())),
        None => None,
    }
}

/// The value of a key is that of the first pair that has it, whatever follows;
/// where no pair has it there is none.
pub proof fn law_first_pair_counts(
    before: Seq<(Seq<char>, Seq<char>)>,
    key: Seq<char>,
    value: Seq<char>,
    after: Seq<(Seq<char>, Seq<char>)>,
)
    requires
        forall|i: int| 0 <= i < before.len() ==> (#[trigger] before[i]).0 != key,
    ensures
        value_in(before + seq![(key, value)] + after, key) == Some(value),
        value_in(before, key) is None,
    decreases before.len(),
{
    let all = before + seq![(key, value)] + after;
    if before.len() == 0 {
        assert(all[0] == (key, value));
    } else {
        let rest = before.drop_first();
        assert(all[0] == before[0]);
        assert(all.drop_first() =~= rest + seq![(key, value)] + after);
        assert forall|i: int| 0 <= i < rest.len() implies (#[trigger] rest[i]).0 != key by {
            assert(before[i + 1].0 != key);
        }
        law_first_pair_counts(rest, key, value, after);
    }
}

} // verus!
