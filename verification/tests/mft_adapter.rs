//! USN journal record → CatalogEvent mapper (no live journal required).

use flashseek::usn::{
    usn_record_to_event, UsnRecord, USN_REASON_FILE_CREATE, USN_REASON_FILE_DELETE,
    USN_REASON_RENAME_NEW_NAME,
};
use flashseek::CatalogEvent;

fn fixture(
    file_id: u64,
    parent_id: Option<u64>,
    reason: u32,
    filename: &str,
    path: &str,
) -> UsnRecord {
    UsnRecord {
        file_id,
        parent_id,
        reason,
        filename: filename.to_string(),
        path: String::from(path),
        size: 12,
        modified: 0,
        is_dir: false,
    }
}

#[test]
fn usn_create_maps_to_catalog_event_create() {
    let rec = fixture(
        1001,
        Some(100),
        USN_REASON_FILE_CREATE,
        "notes.txt",
        r"C:\docs\notes.txt",
    );
    let event = usn_record_to_event(&rec).expect("create reason must map");
    match event {
        CatalogEvent::Create(fr) => {
            assert_eq!(fr.id, 1001);
            assert_eq!(fr.parent_id, Some(100));
            assert_eq!(fr.name, "notes.txt");
            assert_eq!(fr.path, String::from(r"C:\docs\notes.txt"));
            assert_eq!(fr.size, 12);
            assert!(!fr.is_dir);
        }
        other => panic!("expected Create, got {other:?}"),
    }
}

#[test]
fn usn_delete_maps_to_catalog_event_delete() {
    let rec = fixture(
        1001,
        Some(100),
        USN_REASON_FILE_DELETE,
        "notes.txt",
        r"C:\docs\notes.txt",
    );
    let event = usn_record_to_event(&rec).expect("delete reason must map");
    match event {
        CatalogEvent::Delete { id } => assert_eq!(id, 1001),
        other => panic!("expected Delete, got {other:?}"),
    }
}

#[test]
fn usn_rename_maps_to_catalog_event_rename() {
    let rec = fixture(
        1001,
        Some(100),
        USN_REASON_RENAME_NEW_NAME,
        "renamed.txt",
        r"C:\docs\renamed.txt",
    );
    let event = usn_record_to_event(&rec).expect("rename reason must map");
    match event {
        CatalogEvent::Rename {
            id,
            new_name,
            new_path,
        } => {
            assert_eq!(id, 1001);
            assert_eq!(new_name, "renamed.txt");
            assert_eq!(new_path, String::from(r"C:\docs\renamed.txt"));
        }
        other => panic!("expected Rename, got {other:?}"),
    }
}
