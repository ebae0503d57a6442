use dockerfile_tags::dockerfile::Dockerfile;
use dockerfile_tags::dockerfile::Image;
use dockerfile_tags::report::outcome;
use dockerfile_tags::report::validate_dockerfiles;
use dockerfile_tags::report::Outcome;
use std::path::PathBuf;

fn recipe(path: &str, content: &str) -> Dockerfile {
    Dockerfile { path: PathBuf::from(path), content: String::from(content) }
}

#[test]
fn outcome_without_recipes_is_skip() {
    assert_eq!(outcome(0, 0), Outcome::Skip);
    assert_eq!(outcome(0, 3), Outcome::Skip);
}

#[test]
fn outcome_without_failures_is_pass() {
    assert_eq!(outcome(1, 0), Outcome::Pass);
    assert_eq!(outcome(7, 0), Outcome::Pass);
}

#[test]
fn outcome_with_failures_is_fail() {
    assert_eq!(outcome(1, 1), Outcome::Fail);
    assert_eq!(outcome(7, 2), Outcome::Fail);
}

#[test]
fn validate_dockerfiles_of_none() {
    assert_eq!(validate_dockerfiles(&[]).len(), 0);
}

#[test]
fn validate_dockerfiles_keeps_the_failing_ones_in_order() {
    let recipes = vec![
        recipe("a/Dockerfile", "FROM rust:latest"),
        recipe("b/Dockerfile", "FROM rust:1.41"),
        recipe("c/Dockerfile", "RUN make"),
        recipe("d/Dockerfile", "FROM alpine\nFROM alpine"),
    ];
    let failures = validate_dockerfiles(&recipes);
    assert_eq!(failures.len(), 2);
    assert_eq!(failures[0].0.path, PathBuf::from("a/Dockerfile"));
    assert_eq!(
        failures[0].1.invalid_images,
        vec![Image { repository: String::from("rust"), tag: Some(String::from("latest")) }]
    );
    assert_eq!(failures[1].0.path, PathBuf::from("d/Dockerfile"));
    assert_eq!(
        failures[1].1.invalid_images,
        vec![Image { repository: String::from("alpine"), tag: None }]
    );
}

#[test]
fn validate_dockerfiles_of_passing_recipes() {
    let recipes = vec![recipe("Dockerfile", "FROM rust:1.41 AS first\nFROM first"), recipe("x", "")];
    assert_eq!(validate_dockerfiles(&recipes).len(), 0);
    assert_eq!(outcome(recipes.len(), validate_dockerfiles(&recipes).len()), Outcome::Pass);
}
