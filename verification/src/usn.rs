//! USN change-journal records to catalog changes.  Reading `$UsnJrnl` needs
//! a volume handle; the mapping is a pure function.

use vstd::prelude::*;
use crate::types::{CatalogEvent, FileRecord};

verus! {

pub const USN_REASON_FILE_CREATE: u32 = 0x0000_0100;
pub const USN_REASON_FILE_DELETE: u32 = 0x0000_0200;
pub const USN_REASON_RENAME_OLD_NAME: u32 = 0x0000_1000;
pub const USN_REASON_RENAME_NEW_NAME: u32 = 0x0000_2000;
pub const USN_REASON_CLOSE: u32 = 0x8000_0000;

/// A change record of the journal.
#[derive(Debug, Clone, PartialEq, Eq)]
pub struct UsnRecord {
    pub file_id: u64,
    pub parent_id: Option<u64>,
    pub reason: u32,
    pub filename: String,
    pub path: String,
    pub size: u64,
    /// Seconds since the epoch.
    pub modified: u64,
    pub is_dir: bool,
}

/// The catalog change a record means.  Reason bits may be combined: delete
/// wins over rename, rename over create; `RENAME_OLD_NAME` alone (or any
/// other reason) means no change yet.
pub open spec fn usn_event_matches(u: UsnRecord, r: Option<CatalogEvent>) -> bool {
    if u.reason & USN_REASON_FILE_DELETE != 0 {
        r == Some(CatalogEvent::Delete { id: u.file_id })
    } else if u.reason & USN_REASON_RENAME_NEW_NAME != 0 {
        r == Some(CatalogEvent::Rename { id: u.file_id, new_name: u.filename, new_path: u.path })
    } else if u.reason & USN_REASON_FILE_CREATE != 0 {
        r == Some(
            CatalogEvent::Create(
                FileRecord {
                    id: u.file_id,
                    parent_id: u.parent_id,
                    name: u.filename,
                    path: u.path,
                    size: u.size,
                    modified: u.modified,
                    is_dir: u.is_dir,
                    attributes: 0,
                },
            ),
        )
    } else {
        r is None
    }
}

pub fn usn_record_to_event(record: &UsnRecord) -> (r: Option<CatalogEvent>)
    ensures
        usn_event_matches(*record, r),
{
    if record.reason & USN_REASON_FILE_DELETE != 0 {
        Some(CatalogEvent::Delete { id: record.file_id })
    } else if record.reason & USN_REASON_RENAME_NEW_NAME != 0 {
        Some(
            CatalogEvent::Rename {
                id: record.file_id,
                new_name: record.filename.clone(),
                new_path: record.path.clone(),
            },
        )
    } else if record.reason & USN_REASON_FILE_CREATE != 0 {
        Some(
            CatalogEvent::Create(
                FileRecord {
                    id: record.file_id,
                    parent_id: record.parent_id,
                    name: record.filename.clone(),
                    path: record.path.clone(),
                    size: record.size,
                    modified: record.modified,
                    is_dir: record.is_dir,
                    attributes: 0,
                },
            ),
        )
    } else {
        None
    }
}

} // verus!
