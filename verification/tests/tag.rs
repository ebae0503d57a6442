use dockerfile_tags::tag::is_pinned;
use dockerfile_tags::tag::pinned_from;
use dockerfile_tags::tag::rule;
use dockerfile_tags::tag::tag_rules;
use dockerfile_tags::tag::VERSION_CORE;

#[test]
fn rule_puts_the_version_core_between_its_qualifiers() {
    assert_eq!(rule("", ""), format!("^{}$", VERSION_CORE));
    assert_eq!(rule("a", "b"), format!("^a{}b$", VERSION_CORE));
}

#[test]
fn tag_rules_are_the_three_expressions() {
    assert_eq!(
        tag_rules(),
        vec![
            r"^v?([0-9]+(?:(?:\.[a-z0-9]+)|(?:-(?:kb)?[0-9]+))*)(?P<suffix>-[a-z0-9.\-]+)?$",
            r"^(?P<prefix>[a-z0-9.\-]+-)?v?([0-9]+(?:(?:\.[a-z0-9]+)|(?:-(?:kb)?[0-9]+))*)$",
            r"^(?P<prefix>[a-z\-]+-)?v?([0-9]+(?:(?:\.[a-z0-9]+)|(?:-(?:kb)?[0-9]+))*)(?P<suffix>-[a-z\-]+)?$",
        ]
    );
}

#[test]
fn tag_rules_build_a_set() {
    assert!(regex::RegexSetBuilder::new(tag_rules()).case_insensitive(true).build().is_ok());
}

#[test]
fn pinned_from_reads_the_answer() {
    assert!(pinned_from(Some(true)));
    assert!(!pinned_from(Some(false)));
    assert!(!pinned_from(None));
}

#[test]
fn versions_are_pinned() {
    assert!(is_pinned("1.41"));
    assert!(is_pinned("3.11"));
    assert!(is_pinned("v2.3.4"));
    assert!(is_pinned("1"));
    assert!(is_pinned("1.0.0-rc1"));
    assert!(is_pinned("10.0.17763.1039-kb4532691"));
}

#[test]
fn dates_are_pinned() {
    assert!(is_pinned("20200112"));
    assert!(is_pinned("2020011201"));
}

#[test]
fn qualified_versions_are_pinned() {
    assert!(is_pinned("bionic-20200112"));
    assert!(is_pinned("20200112-bionic"));
    assert!(is_pinned("3.11-alpine"));
    assert!(is_pinned("stable-1.2-slim"));
}

#[test]
fn case_does_not_count() {
    assert!(is_pinned("V2.3.4"));
    assert!(is_pinned("Bionic-20200112"));
    assert!(is_pinned("1.0.0-RC1"));
    assert!(!is_pinned("LATEST"));
}

#[test]
fn words_are_not_pinned() {
    assert!(!is_pinned("latest"));
    assert!(!is_pinned("stable"));
    assert!(!is_pinned("bionic"));
    assert!(!is_pinned("v"));
    assert!(!is_pinned("slim-buster"));
}

#[test]
fn empty_tag_is_not_pinned() {
    assert!(!is_pinned(""));
}

#[test]
fn digests_are_not_pinned() {
    assert!(!is_pinned("8d81c7bb21fa44bf6dffa1c5c3eff9be08dcd81a"));
    assert!(!is_pinned("da39a3ee5e6b4b0d3255bfef95601890afd80709"));
}

#[test]
fn a_rule_matches_the_whole_tag_only() {
    assert!(!is_pinned("1.41 "));
    assert!(!is_pinned(" 1.41"));
    assert!(!is_pinned("1.41\n2"));
    assert!(!is_pinned("1.41_2"));
}
