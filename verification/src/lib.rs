//! Note-vault logic: frontmatter, sections, tags and the pure parts of the
//! vault operations. Each function states its behaviour in a contract; all
//! are proved by Verus except the ten small wrappers around outside calls
//! (YAML and JSON loading, the anchor regex, character classes, lowercasing,
//! and the `str`/`String` conversions), whose contracts are trusted.

pub mod config;
pub mod parse;
pub mod text;
pub mod vault;
pub mod ranking;
pub mod tools;
