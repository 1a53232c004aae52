//! Parsers for the parts of a note: frontmatter, sections, tags and links.

pub mod frontmatter;
pub mod sections;
pub mod tags;
pub mod wikilink;
pub mod tag_removal;
