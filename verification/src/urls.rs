//! The two calls into the `url` crate that building map links needs.

use vstd::prelude::*;

verus! {

/// Whether `url::Url::parse` accepts `input` as an absolute URL.
pub uninterp spec fn url_parses(input: Seq<char>) -> bool;

/// The serialisation of the URL that `url::Url::join` resolves `input` to
/// against the URL parsed from `base`; `None` when `join` fails.
pub uninterp spec fn url_joined(base: Seq<char>, input: Seq<char>) -> Option<Seq<char>>;

/// Calls `url::Url::parse` on `input` and reports whether it succeeded. The
/// contract claims only that the answer is the crate's, a function of the
/// text alone.
#[verifier::external_body]
pub(crate) fn parse_url(input: &str) -> (r: bool)
    ensures
        r == url_parses(input@),
{
    url::Url::parse(input).is_ok()
}

/// Parses `base` with `url::Url::parse`, resolves `input` against it with
/// `url::Url::join` and returns the serialisation (`to_string`) of the
/// result, or `None` when `join` fails. The contract claims that the result
/// is a function of the two texts alone, and that a serialisation is never
/// empty (it always starts with the scheme and a colon); what else the text
/// is goes unstated.
#[verifier::external_body]
pub(crate) fn join_url(base: &str, input: &str) -> (r: Option<String>)
    requires
        url_parses(base@),
    ensures
        match r {
            Some(joined) => url_joined(base@, input@) == Some(joined@) && joined@.len() > 0,
            None => url_joined(base@, input@) is None,
        },
{
    match url::Url::parse(base) {
        Ok(base_url) => match base_url.join(input) {
            Ok(joined) => Some(joined.to_string()),
            Err(_) => None,
        },
        Err(_) => None,
    }
}

} // verus!
