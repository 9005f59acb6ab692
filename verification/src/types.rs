//! Records of the name catalog, catalog events, hits and snippets.
//!
//! Paths are strings in the Windows style of `crate::path`; times are whole
//! seconds since the Unix epoch.

use vstd::prelude::*;

verus! {

/// `FILE_ATTRIBUTE_READONLY`.
pub const ATTR_READONLY: u32 = 0x1;

/// `FILE_ATTRIBUTE_HIDDEN`.
pub const ATTR_HIDDEN: u32 = 0x2;

/// `FILE_ATTRIBUTE_SYSTEM`.
pub const ATTR_SYSTEM: u32 = 0x4;

/// `FILE_ATTRIBUTE_DIRECTORY`.
pub const ATTR_DIRECTORY: u32 = 0x10;

/// `FILE_ATTRIBUTE_ARCHIVE`.
pub const ATTR_ARCHIVE: u32 = 0x20;

/// One entry of the name catalog.
#[derive(Debug, Clone, PartialEq, Eq)]
pub struct FileRecord {
    pub id: u64,
    pub parent_id: Option<u64>,
    pub name: String,
    pub path: String,
    pub size: u64,
    /// Last modification, seconds since the Unix epoch.
    pub modified: u64,
    pub is_dir: bool,
    /// Windows file attribute bits (`ATTR_*`).
    pub attributes: u32,
}

impl FileRecord {
    /// A field-by-field copy.
    pub fn duplicate(&self) -> (r: FileRecord)
        ensures
            r == *self,
    {
        FileRecord {
            id: self.id,
            parent_id: self.parent_id,
            name: self.name.clone(),
            path: self.path.clone(),
            size: self.size,
            modified: self.modified,
            is_dir: self.is_dir,
            attributes: self.attributes,
        }
    }
}

/// A change to apply to the catalog.
#[derive(Debug, Clone, PartialEq, Eq)]
pub enum CatalogEvent {
    Create(FileRecord),
    Delete { id: u64 },
    Rename { id: u64, new_name: String, new_path: String },
}

/// A piece of a body around the first matched term.
#[derive(Debug, Clone, PartialEq)]
pub struct Snippet {
    pub text: String,
    /// Byte offsets into `text` of matched terms.
    pub highlights: Vec<(usize, usize)>,
}

/// A search result.
#[derive(Debug, Clone, PartialEq)]
pub struct Hit {
    pub record: FileRecord,
    /// Rank score in units of 1/604800 of a point (see `crate::rank`).
    pub score: u64,
    pub name_match: bool,
    pub path_match: bool,
    pub content_match: bool,
    pub snippet: Option<Snippet>,
}

} // verus!
