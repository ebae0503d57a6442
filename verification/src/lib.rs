//! Finds the base images that container recipes build on and tells which of
//! them are not reproducible: those without a tag, and those whose tag does not
//! have the shape of a fixed version.
//!
//! `text` splits a recipe into lines, `directive` reads the lines that declare
//! a base image, `dockerfile` turns them into image references and validates a
//! recipe, `tag` holds the shapes of a pinned tag, `pattern` searches for
//! regular expressions, and `report` validates a set of recipes.

pub mod directive;
pub mod dockerfile;
pub mod pattern;
pub mod report;
pub mod tag;
pub mod text;
