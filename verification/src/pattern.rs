//! Field extraction by regular expression, behind trusted wrappers around the
//! `regex` crate. What a pattern extracts from a line is a function of the
//! pattern and the line alone, so the result is given a name that the engine's
//! contracts are stated over.

use vstd::prelude::*;

verus! {

/// Whether `regex::Regex::new` accepts the pattern; compilation succeeds or
/// fails on the pattern text alone.
pub uninterp spec fn regex_valid(pattern: Seq<char>) -> bool;

/// What extracting with a pattern returns on a line: the text of capture group
/// one of the first match, `None` when the pattern is invalid, does not match,
/// or has no group one. A function of the pattern and the line alone.
pub uninterp spec fn regex_capture(pattern: Seq<char>, line: Seq<char>) -> Option<Seq<char>>;

/// Relies on `regex::Regex::new`: whether a pattern compiles depends on the
/// pattern text alone; on failure the error's message is returned.
#[verifier::external_body]
pub(crate) fn pattern_check(pattern: &str) -> (r: Result<(), String>)
    ensures
        r is Ok <==> regex_valid(pattern@),
{
    match regex::Regex::new(pattern) {
        Ok(_) => Ok(()),
        Err(e) => Err(e.to_string()),
    }
}

/// Relies on `regex::Regex::new` and `regex::Regex::captures`: both are
/// deterministic in the pattern and the haystack, so the extracted group-one
/// text is the named function of the two. An invalid pattern extracts nothing.
#[verifier::external_body]
pub(crate) fn pattern_capture(pattern: &str, line: &str) -> (r: Option<String>)
    ensures
        r.deep_view() == regex_capture(pattern@, line@),
{
    match regex::Regex::new(pattern) {
        Ok(re) => re.captures(line).and_then(|c| c.get(1)).map(|m| m.as_str().to_string()),
        Err(_) => None,
    }
}

} // verus!
