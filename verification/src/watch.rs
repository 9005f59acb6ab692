//! Filesystem notifications to catalog changes.  A directory watcher fills
//! `FsChange` without `$MFT` or `$UsnJrnl` access; the mapping is a pure
//! function.

use vstd::prelude::*;
use crate::path::{file_name, file_name_exec};
use crate::text::string_of;
use crate::types::{CatalogEvent, FileRecord};

verus! {

/// Kind of filesystem notification.
#[derive(Debug, Clone, Copy, PartialEq, Eq, Structural)]
pub enum FsChangeKind {
    Create,
    Delete,
    Rename,
    Modify,
}

/// A filesystem change.
#[derive(Debug, Clone, PartialEq, Eq)]
pub struct FsChange {
    pub kind: FsChangeKind,
    pub path: String,
    pub new_path: Option<String>,
    pub is_dir: bool,
    pub size: u64,
    /// Seconds since the epoch.
    pub modified: u64,
}

/// The last component of a path (empty when there is none).
pub open spec fn name_from_spec(path: Seq<char>) -> Seq<char> {
    match file_name(path) {
        Some(n) => n,
        None => Seq::empty(),
    }
}

pub fn name_from(path: &str) -> (r: String)
    ensures
        r@ == name_from_spec(path@),
{
    match file_name_exec(&crate::text::chars_of(path)) {
        Some(n) => string_of(&n),
        None => String::new(),
    }
}

/// The catalog change a notification means: a create gets `next_id`; a
/// delete or rename needs the id already known for the path
/// (`existing_id`), and a rename its new path; a modification changes
/// nothing in the name catalog.
pub open spec fn change_event_matches(c: FsChange, next_id: u64, existing_id: Option<u64>, r: Option<CatalogEvent>) -> bool {
    match c.kind {
        FsChangeKind::Create => r matches Some(CatalogEvent::Create(rec)) && rec.id == next_id
            && rec.parent_id is None && rec.name@ == name_from_spec(c.path@) && rec.path@ == c.path@
            && rec.size == c.size && rec.modified == c.modified && rec.is_dir == c.is_dir
            && rec.attributes == 0,
        FsChangeKind::Delete => match existing_id {
            Some(id) => r == Some(CatalogEvent::Delete { id }),
            None => r is None,
        },
        FsChangeKind::Rename => match (existing_id, c.new_path) {
            (Some(id), Some(np)) => r matches Some(CatalogEvent::Rename { id: rid, new_name, new_path })
                && rid == id && new_name@ == name_from_spec(np@) && new_path@ == np@,
            _ => r is None,
        },
        FsChangeKind::Modify => r is None,
    }
}

pub fn fs_change_to_event(change: &FsChange, next_id: u64, existing_id: Option<u64>) -> (r: Option<CatalogEvent>)
    ensures
        change_event_matches(*change, next_id, existing_id, r),
{
    match change.kind {
        FsChangeKind::Create => Some(
            CatalogEvent::Create(
                FileRecord {
                    id: next_id,
                    parent_id: None,
                    name: name_from(change.path.as_str()),
                    path: change.path.clone(),
                    size: change.size,
                    modified: change.modified,
                    is_dir: change.is_dir,
                    attributes: 0,
                },
            ),
        ),
        FsChangeKind::Delete => match existing_id {
            Some(id) => Some(CatalogEvent::Delete { id }),
            None => None,
        },
        FsChangeKind::Rename => {
            let id = match existing_id {
                Some(id) => id,
                None => return None,
            };
            let new_path = match &change.new_path {
                Some(p) => p.clone(),
                None => return None,
            };
            Some(
                CatalogEvent::Rename {
                    id,
                    new_name: name_from(new_path.as_str()),
                    new_path,
                },
            )
        },
        FsChangeKind::Modify => None,
    }
}

} // verus!
