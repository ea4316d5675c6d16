//! Regular expressions. The `regex` crate does the matching; what it answers
//! is named here, so that the rest of the library can say exactly what it
//! does with each answer.

use regex::Regex;
use vstd::prelude::*;

verus! {

/// Whether the regular expression `pattern` compiles and has a match somewhere
/// in `text`.
pub uninterp spec fn has_match(pattern: Seq<char>, text: Seq<char>) -> bool;

/// What the first capture group holds in the leftmost match of the regular
/// expression `pattern` in `text`. `None` where `pattern` does not compile,
/// where it has no match, and where the group took no part in the match.
pub uninterp spec fn first_group(pattern: Seq<char>, text: Seq<char>) -> Option<Seq<char>>;

/// Calls `Regex::new` and `Regex::is_match`: the result is `has_match`, which
/// is false for a pattern that `Regex::new` refuses.
#[verifier::external_body]
pub(crate) fn matches_somewhere(pattern: &str, text: &str) -> (b: bool)
    ensures
        b == has_match(pattern@, text@),
{
    match Regex::new(pattern) {
        Ok(re) => re.is_match(text),
        Err(_) => false,
    }
}

/// Calls `Regex::new`, `Regex::captures` and `Captures::get` with index 1: the
/// result is `first_group`, as a string of its own.
#[verifier::external_body]
pub(crate) fn capture_first_group(pattern: &str, text: &str) -> (r: Option<String>)
    ensures
        match r {
            Some(s) => first_group(pattern@, text@) == Some(s@),
            None => first_group(pattern@, text@) is None,
        },
{
    match Regex::new(pattern) {
        Ok(re) => re.captures(text).and_then(|caps| caps.get(1)).map(|m| m.as_str().to_string()),
        Err(_) => None,
    }
}

} // verus!
