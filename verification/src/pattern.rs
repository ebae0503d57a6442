//! Searches for regular expressions, done by the `regex` crate.
//!
//! What an expression matches is not spelled out here. Each search has a name,
//! a function of the expressions and the text searched, and the contracts of
//! the callers speak of that name.

use regex::Regex;
use regex::RegexSetBuilder;
use vstd::prelude::*;

verus! {

/// What `Regex::new(pattern)` followed by `Regex::captures(haystack)` gives:
/// `None` where `pattern` is no valid expression, `Some(None)` where it is one
/// and matches nowhere in `haystack`, and else, for the leftmost match, the text
/// of each capture group in the order of the groups' opening brackets, group 0
/// being the whole match and `None` standing for a group that took no part.
pub uninterp spec fn regex_captures(pattern: Seq<char>, haystack: Seq<char>) -> Option<
    Option<Seq<Option<Seq<char>>>>,
>;

/// What a `RegexSet` built by `RegexSetBuilder` from `patterns`, with the given
/// case sensitivity, answers to `RegexSet::is_match(haystack)`: `None` where
/// the set cannot be built, else whether one of the expressions matches
/// somewhere in `haystack`.
pub uninterp spec fn regex_set_is_match(
    patterns: Seq<Seq<char>>,
    case_insensitive: bool,
    haystack: Seq<char>,
) -> Option<bool>;

/// Compiles `pattern` with `Regex::new` and searches `haystack` with
/// `Regex::captures`, handing out the text of every group of the match.
/// Nothing is claimed of the outcome but that it is `regex_captures` of the two
/// texts: the same expression on the same text always gives the same groups.
#[verifier::external_body]
pub(crate) fn captures(pattern: &str, haystack: &str) -> (found: Option<
    Option<Vec<Option<String>>>,
>)
    ensures
        found.deep_view() == regex_captures(pattern@, haystack@),
{
    let regex = Regex::new(pattern).ok()?;
    let groups = regex.captures(haystack);
    Some(groups.map(|c| c.iter().map(|g| g.map(|m| m.as_str().to_string())).collect()))
}

/// Builds a `RegexSet` from `patterns` with `RegexSetBuilder`, case
/// insensitive or not, and asks `RegexSet::is_match` of `haystack`. Nothing is
/// claimed of the answer but that it is `regex_set_is_match` of the arguments.
#[verifier::external_body]
pub(crate) fn set_is_match(patterns: &Vec<String>, case_insensitive: bool, haystack: &str) -> (found:
    Option<bool>)
    ensures
        found == regex_set_is_match(patterns.deep_view(), case_insensitive, haystack@),
{
    let set = RegexSetBuilder::new(patterns).case_insensitive(case_insensitive).build().ok()?;
    Some(set.is_match(haystack))
}

} // verus!
