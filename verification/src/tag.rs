//! The shapes of a tag that names a fixed version.

use crate::pattern::regex_set_is_match;
use crate::pattern::set_is_match;
use vstd::prelude::*;
use vstd::string::StringExecFns;

verus! {

/// The core of a version: an optional `v`, digits, and then any number of
/// segments, each a dot with letters and digits, or a dash, optionally `kb`,
/// and digits.
pub const VERSION_CORE: &'static str = r"v?([0-9]+(?:(?:\.[a-z0-9]+)|(?:-(?:kb)?[0-9]+))*)";

/// A qualifier before the version, of letters, digits, dots and dashes.
pub const FREE_PREFIX: &'static str = r"(?P<prefix>[a-z0-9.\-]+-)?";

/// A qualifier after the version, of letters, digits, dots and dashes.
pub const FREE_SUFFIX: &'static str = r"(?P<suffix>-[a-z0-9.\-]+)?";

/// A qualifier before the version, of letters and dashes.
pub const WORD_PREFIX: &'static str = r"(?P<prefix>[a-z\-]+-)?";

/// A qualifier after the version, of letters and dashes.
pub const WORD_SUFFIX: &'static str = r"(?P<suffix>-[a-z\-]+)?";

/// The expression for a whole tag that is a version core between `prefix`
/// and `suffix`.
pub open spec fn rule_pattern(prefix: Seq<char>, suffix: Seq<char>) -> Seq<char> {
    "^"@ + prefix + VERSION_CORE@ + suffix + "$"@
}

/// The shapes of a pinned tag: a version with a free suffix, a version with a
/// free prefix, and a version between qualifiers of letters. A tag that has one
/// of them is pinned.
pub open spec fn tag_rule_patterns() -> Seq<Seq<char>> {
    seq![
        rule_pattern(""@, FREE_SUFFIX@),
        rule_pattern(FREE_PREFIX@, ""@),
        rule_pattern(WORD_PREFIX@, WORD_SUFFIX@),
    ]
}

/// The reading of an answer of the rule set: a tag is pinned where the set
/// was built and one of its rules matched.
pub open spec fn pinned_by(answer: Option<bool>) -> bool {
    answer == Some(true)
}

/// Whether `tag` has the shape of a fixed version: one of the rules, read
/// without regard to case, matches it.
pub open spec fn pinned(tag: Seq<char>) -> bool {
    pinned_by(regex_set_is_match(tag_rule_patterns(), true, tag))
}

/// Writes the expression for a version core between `prefix` and `suffix`.
pub fn rule(prefix: &str, suffix: &str) -> (pattern: String)
    ensures
        pattern@ == rule_pattern(prefix@, suffix@),
{
    let mut pattern: String = String::from_str("^");
    pattern.append(prefix);
    pattern.append(VERSION_CORE);
    pattern.append(suffix);
    pattern.append("$");
    pattern
}

/// The expressions of the three rules.
pub fn tag_rules() -> (rules: Vec<String>)
    ensures
        rules.deep_view() == tag_rule_patterns(),
{
    let mut rules: Vec<String> = Vec::new();
    rules.push(rule("", FREE_SUFFIX));
    rules.push(rule(FREE_PREFIX, ""));
    rules.push(rule(WORD_PREFIX, WORD_SUFFIX));
    assert(rules.deep_view() =~= tag_rule_patterns());
    rules
}

/// Reads the answer of the rule set.
pub fn pinned_from(answer: Option<bool>) -> (yes: bool)
    ensures
        yes == pinned_by(answer),
{
    match answer {
        Some(matched) => matched,
        None => false,
    }
}

/// Tells whether `tag` has the shape of a fixed version.
pub fn is_pinned(tag: &str) -> (yes: bool)
    ensures
        yes == pinned(tag@),
{
    let rules: Vec<String> = tag_rules();
    pinned_from(set_is_match(&rules, true, tag))
}

} // verus!
