//! The arguments of the tools that change the vault.

use vstd::prelude::*;
use crate::parse::frontmatter::Frontmatter;

verus! {

/// Move a note from `source` to `dest`, relinking the notes that point at it.
pub struct RenameNoteRequest {
    /// Current path of the note.
    pub source: String,
    /// New path for the note.
    pub dest: String,
}

/// Append the body of `source` to `dest`, then delete `source`.
pub struct MergeNotesRequest {
    /// Source note path (deleted after the merge).
    pub source: String,
    /// Destination note path (content appended here).
    pub dest: String,
}

/// Add and remove tags on every note that a full-text search finds.
pub struct BulkTagRequest {
    /// Full-text search query that selects the notes.
    pub query: String,
    /// Tags to add.
    pub add_tags: Option<Vec<String>>,
    /// Tags to remove.
    pub remove_tags: Option<Vec<String>>,
}

/// Append links to the notes that share the most words with a note.
pub struct LinkRelatedNotesRequest {
    /// Path of the note to link from.
    pub path: String,
}

/// Create a folder inside the vault.
pub struct CreateFolderRequest {
    /// Path of the new folder, relative to the vault root.
    pub path: String,
}

/// Create a note.
pub struct CreateNoteRequest {
    /// Path of the new note, relative to the vault root.
    pub path: String,
    /// Note content (markdown).
    pub content: Option<String>,
    /// Initial frontmatter fields.
    pub frontmatter: Option<Frontmatter>,
}

/// Append to a note or replace its body.
pub struct UpdateNoteRequest {
    /// Path of the note to update.
    pub path: String,
    /// Content to write.
    pub content: String,
    /// `append` to add to the end, `replace` to overwrite the body (the
    /// frontmatter is kept).
    pub mode: String,
}

/// Set frontmatter fields of a note.
pub struct SetFrontmatterRequest {
    /// Path of the note.
    pub path: String,
    /// Fields to set; they are merged into the existing ones.
    pub fields: Frontmatter,
}

} // verus!
