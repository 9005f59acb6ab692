//! Concrete checks of the library's laws, formulas, edge cases and errors.

use std::collections::HashMap;
use std::io::{Cursor, Write};

use flashseek::catalog::Catalog;
use flashseek::cli::{
    decimal_exec, output_text, parse_args, prints_output, resolve_roots, Cli,
};
use flashseek::content::{make_snippet, tokenize_words, ContentIndex};
use flashseek::engine::{apply_config_to_fields, parse_engine_config, EngineConfig};
use flashseek::extract::{
    decode_entity, decode_plain_bytes, ext_of, extract_from_bytes, extract_office, xml_to_text,
    ExtractError, OfficeKind,
};
use flashseek::mft::{
    enum_step, filetime_to_secs, is_ntfs_boot, mft_records, parse_enum_records, parse_one,
    resolve_path, utf16le, volume_device_path, volume_root_path, EnumStep, MftNode,
    ERROR_HANDLE_EOF, ERROR_MORE_DATA, FILETIME_EPOCH_DIFF,
};
use flashseek::nl::compile_nl;
use flashseek::preview::{
    clsid_from_reg_output, preview_ext_key_exec, preview_registry_key_exec, PREVIEW_HANDLER_SHELLEX,
};
use flashseek::query::{parse_query, tokenize, Atom, SizeFilter, SortMode};
use flashseek::rank::{score, sort_hits_by, RECENCY_WINDOW_SECS};
use flashseek::search::search;
use flashseek::text::chars_of;
use flashseek::ui::{
    action_index, is_image, selection_after_refresh, snippet_segments, split_content_roots,
};
use flashseek::usn::{usn_record_to_event, UsnRecord, USN_REASON_FILE_DELETE, USN_REASON_RENAME_NEW_NAME, USN_REASON_RENAME_OLD_NAME};
use flashseek::walk::{first_free_id, is_skipped_dir_name, under_any, walk_entry, WalkEntry};
use flashseek::watch::name_from;
use flashseek::{CatalogEvent, Engine, FileRecord, Hit};
use zip::write::SimpleFileOptions;
use zip::ZipWriter;

const NOW: u64 = 1_800_000_000;

fn rec(id: u64, name: &str, path: &str, size: u64, modified: u64, is_dir: bool) -> FileRecord {
    FileRecord {
        id,
        parent_id: None,
        name: name.to_string(),
        path: path.to_string(),
        size,
        modified,
        is_dir,
        attributes: 0,
    }
}

fn hit(name: &str, size: u64, modified: u64, score: u64) -> Hit {
    Hit {
        record: rec(1, name, &format!("C:\\d\\{name}"), size, modified, false),
        score,
        name_match: true,
        path_match: false,
        content_match: false,
        snippet: None,
    }
}

fn names(hits: &[Hit]) -> Vec<String> {
    hits.iter().map(|h| h.record.name.clone()).collect()
}

// ---- query language ----

#[test]
fn tokens_are_never_empty_and_quotes_keep_spaces() {
    let t = tokenize("  alpha   \"b c\"  d ");
    assert_eq!(t, vec!["alpha".to_string(), "b c".to_string(), "d".to_string()]);
    assert!(t.iter().all(|x| !x.is_empty()));
    assert!(tokenize("   ").is_empty());
}

#[test]
fn space_separated_words_are_plain_terms_in_order() {
    let q = parse_query("alpha beta gamma", NOW);
    let raws: Vec<String> = q
        .must
        .iter()
        .map(|a| match a {
            Atom::Term(p) => p.raw.clone(),
            Atom::Or(_) => panic!("unexpected OR"),
        })
        .collect();
    assert_eq!(raws, vec!["alpha", "beta", "gamma"]);
    assert!(q.must_not.is_empty());
    assert!(q.extensions.is_empty());
    assert!(!q.name_only);
}

#[test]
fn size_units_give_exact_byte_counts() {
    assert_eq!(parse_query("size:>1mb", NOW).size, Some(SizeFilter::Gt(1_048_576)));
    assert_eq!(parse_query("size:<10kb", NOW).size, Some(SizeFilter::Lt(10_240)));
    assert_eq!(parse_query("size:1.5kb", NOW).size, Some(SizeFilter::Eq(1_536)));
    assert_eq!(parse_query("size:>=2gb", NOW).size, Some(SizeFilter::Ge(2_147_483_648)));
    assert_eq!(parse_query("size:<=300", NOW).size, Some(SizeFilter::Le(300)));
    assert_eq!(parse_query("size:big", NOW).size, None);
}

#[test]
fn dm_windows_are_exact() {
    assert_eq!(parse_query("dm:today", NOW).modified_after, Some(NOW - 86_400));
    assert_eq!(parse_query("dm:lastweek", NOW).modified_after, Some(NOW - 7 * 86_400));
}

#[test]
fn sort_and_count_operators() {
    let q = parse_query("sort:size count:2 report", NOW);
    assert_eq!(q.sort, SortMode::Size);
    assert_eq!(q.max_results, Some(2));
    assert_eq!(q.must.len(), 1);
}

#[test]
fn korean_recent_window_is_seven_days() {
    let q = compile_nl("최근 세금", NOW);
    assert_eq!(q.modified_after, Some(NOW - 7 * 86_400));
}

// ---- catalog ----

#[test]
fn insert_replaces_same_id_and_get_finds_it() {
    let mut c = Catalog::new();
    c.insert(rec(1, "a.txt", r"C:\a.txt", 1, 0, false));
    c.insert(rec(1, "b.txt", r"C:\b.txt", 2, 0, false));
    assert_eq!(c.len(), 1);
    assert_eq!(c.get(1).unwrap().name, "b.txt");
    assert!(c.by_path(r"C:\a.txt").is_none());
    assert_eq!(c.by_path(r"C:\b.txt").unwrap().size, 2);
}

#[test]
fn delete_then_get_is_none_and_unknown_rename_changes_nothing() {
    let mut c = Catalog::new();
    c.insert(rec(7, "a.txt", r"C:\a.txt", 1, 0, false));
    c.apply(CatalogEvent::Rename { id: 99, new_name: "z".into(), new_path: r"C:\z".into() });
    assert_eq!(c.get(7).unwrap().name, "a.txt");
    assert_eq!(c.len(), 1);
    c.apply(CatalogEvent::Delete { id: 7 });
    assert!(c.get(7).is_none());
    c.apply(CatalogEvent::Delete { id: 7 });
    assert!(c.is_empty());
}

#[test]
fn insert_all_counts_and_keeps_last_of_each_id() {
    let mut c = Catalog::new();
    let n = c.insert_all(vec![
        rec(1, "a", r"C:\a", 0, 0, false),
        rec(2, "b", r"C:\b", 0, 0, false),
        rec(1, "c", r"C:\c", 0, 0, false),
    ]);
    assert_eq!(n, 3);
    assert_eq!(c.len(), 2);
    assert_eq!(c.get(1).unwrap().name, "c");
    assert_eq!(c.names_with_prefix("C").len(), 1);
}

#[test]
fn catalog_length_follows_each_change() {
    let mut c = Catalog::new();
    c.insert(rec(1, "a", r"C:\a", 0, 0, false));
    assert_eq!(c.len(), 1);
    c.insert(rec(1, "b", r"C:\b", 0, 0, false));
    assert_eq!(c.len(), 1);
    c.apply(CatalogEvent::Create(rec(2, "c", r"C:\c", 0, 0, false)));
    assert_eq!(c.len(), 2);
    c.apply(CatalogEvent::Create(rec(2, "d", r"C:\d", 0, 0, false)));
    assert_eq!(c.len(), 2);
    c.apply(CatalogEvent::Rename { id: 2, new_name: "e".into(), new_path: r"C:\e".into() });
    assert_eq!(c.len(), 2);
    c.apply(CatalogEvent::Delete { id: 3 });
    assert_eq!(c.len(), 2);
    c.apply(CatalogEvent::Delete { id: 1 });
    assert_eq!(c.len(), 1);
    assert_eq!(c.get(2).unwrap().name, "e");
}

// ---- content index ----

#[test]
fn index_then_lookup_and_remove() {
    let mut idx = ContentIndex::new();
    idx.index(r"C:\a.txt".to_string(), "Alpha beta".to_string());
    idx.index(r"C:\b.txt".to_string(), "beta".to_string());
    let mut p = idx.paths_for_word("BETA");
    p.sort();
    assert_eq!(p, vec![r"C:\a.txt".to_string(), r"C:\b.txt".to_string()]);
    idx.index(r"C:\a.txt".to_string(), "gamma".to_string());
    assert_eq!(idx.paths_for_word("beta"), vec![r"C:\b.txt".to_string()]);
    assert_eq!(idx.paths_for_word("gamma"), vec![r"C:\a.txt".to_string()]);
    assert_eq!(idx.body(r"C:\a.txt"), Some("gamma"));
    idx.remove(r"C:\a.txt");
    assert!(idx.paths_for_word("gamma").is_empty());
    assert_eq!(idx.bodies_len(), 1);
    assert!(idx.contains_all(r"C:\b.txt", &["BeTa".to_string()]));
    assert!(!idx.contains_all(r"C:\a.txt", &["beta".to_string()]));
}

#[test]
fn words_are_lowercase_runs_of_letters_and_digits() {
    assert_eq!(
        tokenize_words("Hello, 세금-2024!"),
        vec!["hello".to_string(), "세금".to_string(), "2024".to_string()]
    );
}

#[test]
fn snippet_highlights_every_occurrence_within_the_text() {
    let s = make_snippet("Tax tax TAX", &["tax".to_string()], 80).unwrap();
    assert_eq!(s.text, "Tax tax TAX");
    assert_eq!(s.highlights, vec![(0, 3), (4, 7), (8, 11)]);
    for &(a, b) in &s.highlights {
        assert!(a <= b && b <= s.text.len());
        assert_eq!(s.text[a..b].to_lowercase(), "tax");
    }
    assert!(make_snippet("nothing here", &["tax".to_string()], 5).is_none());
    assert!(make_snippet("tax", &[], 5).is_none());
}

#[test]
fn snippet_context_is_cut_on_character_boundaries() {
    let body = "가나다라마바사 세금 아자차카";
    let s = make_snippet(body, &["세금".to_string()], 4).unwrap();
    assert!(s.text.contains("세금"));
    assert!(s.text.len() < body.len());
    let (a, b) = s.highlights[0];
    assert_eq!(&s.text[a..b], "세금");
}

// ---- ranking ----

#[test]
fn score_formula_exact_values() {
    let w = RECENCY_WINDOW_SECS;
    let name_now = hit("x.txt", 1, NOW, 0);
    assert_eq!(score(&name_now, NOW, &[]), 1050 * w);
    let exact = hit("report.txt", 1, NOW - w, 0);
    assert_eq!(score(&exact, NOW, &["REPORT".to_string()]), 1200 * w);
    let mut path_only = hit("x.txt", 1, NOW - w / 2, 0);
    path_only.name_match = false;
    path_only.path_match = true;
    path_only.content_match = true;
    assert_eq!(score(&path_only, NOW, &[]), 110 * w + 50 * (w - w / 2));
    let future = hit("x.txt", 1, NOW + 10, 0);
    assert_eq!(score(&future, NOW, &[]), 1000 * w);
}

#[test]
fn sort_modes_order_and_break_ties_by_name() {
    let mut hits = vec![
        hit("b.txt", 10, 5, 3),
        hit("a.txt", 10, 9, 3),
        hit("c.txt", 99, 1, 7),
    ];
    sort_hits_by(&mut hits, SortMode::Size);
    assert_eq!(names(&hits), vec!["c.txt", "a.txt", "b.txt"]);
    sort_hits_by(&mut hits, SortMode::Date);
    assert_eq!(names(&hits), vec!["a.txt", "b.txt", "c.txt"]);
    sort_hits_by(&mut hits, SortMode::Name);
    assert_eq!(names(&hits), vec!["a.txt", "b.txt", "c.txt"]);
    sort_hits_by(&mut hits, SortMode::Score);
    assert_eq!(names(&hits), vec!["c.txt", "a.txt", "b.txt"]);
}

// ---- search ----

fn small_catalog() -> Catalog {
    let mut c = Catalog::new();
    c.insert(rec(1, "alpha.pdf", r"C:\docs\alpha.pdf", 10, NOW, false));
    c.insert(rec(2, "beta.txt", r"C:\docs\beta.txt", 20, NOW, false));
    c.insert(rec(3, "docs", r"C:\docs", 0, NOW, true));
    c
}

#[test]
fn every_matching_record_is_a_hit_and_nothing_else() {
    let c = small_catalog();
    let content = ContentIndex::new();
    let hits = search(&c, &content, &parse_query("docs", NOW), NOW);
    assert_eq!(hits.len(), 3);
    let hits = search(&c, &content, &parse_query("ext:pdf;txt", NOW), NOW);
    let mut got = names(&hits);
    got.sort();
    assert_eq!(got, vec!["alpha.pdf", "beta.txt"]);
    let hits = search(&c, &content, &parse_query("docs !beta folder:", NOW), NOW);
    assert_eq!(names(&hits), vec!["docs"]);
}

#[test]
fn blank_query_lists_the_whole_catalog() {
    let mut engine = Engine::new();
    engine.catalog.insert(rec(1, "a", r"C:\a", 0, 0, false));
    engine.catalog.insert(rec(2, "b", r"C:\b", 0, 0, true));
    assert_eq!(engine.query("   ", NOW).len(), 2);
}

// ---- extraction ----

#[test]
fn invalid_utf8_is_an_error() {
    assert_eq!(decode_plain_bytes(&[0xC3, 0x28]), Err(ExtractError::InvalidUtf8));
    assert_eq!(extract_from_bytes("txt", &[0xFF]), Err(ExtractError::InvalidUtf8));
    assert_eq!(extract_from_bytes("html", &[0xFF]), Err(ExtractError::InvalidUtf8));
}

#[test]
fn utf16_big_endian_and_lossy_halves() {
    let mut v = vec![0xFE, 0xFF];
    for c in "세금".encode_utf16() {
        v.extend_from_slice(&c.to_be_bytes());
    }
    assert_eq!(decode_plain_bytes(&v).unwrap(), "세금");
    assert_eq!(decode_plain_bytes(&[0xFF, 0xFE, 0x00, 0xD8]).unwrap(), "\u{FFFD}");
}

#[test]
fn unknown_extension_is_unsupported() {
    assert_eq!(
        extract_from_bytes("exe", b"MZ"),
        Err(ExtractError::Unsupported("exe".to_string()))
    );
    assert_eq!(ext_of(r"C:\a\B.PDF"), Some("pdf".to_string()));
    assert_eq!(ext_of(r"C:\a\README"), None);
}

#[test]
fn entities_and_tags() {
    assert_eq!(decode_entity(&chars_of("amp")), vec!['&']);
    assert_eq!(decode_entity(&chars_of("#x41")), vec!['A']);
    assert_eq!(decode_entity(&chars_of("#54616")), vec!['하']);
    assert!(decode_entity(&chars_of("bogus")).is_empty());
    assert_eq!(xml_to_text("<a>x &lt; y</a><b>z</b>"), "x < y z");
}

fn zip_with(inner: &str, data: &[u8], stored: bool) -> Vec<u8> {
    let mut zip = ZipWriter::new(Cursor::new(Vec::new()));
    let mut opt = SimpleFileOptions::default();
    if stored {
        opt = opt.compression_method(zip::CompressionMethod::Stored);
    }
    zip.start_file(inner, opt).unwrap();
    zip.write_all(data).unwrap();
    zip.finish().unwrap().into_inner()
}

#[test]
fn office_errors_for_bad_archives_and_parts() {
    assert_eq!(extract_office(b"not a zip at all", OfficeKind::Docx), Err(ExtractError::BadArchive));
    let bad_text = zip_with("word/document.xml", &[0xFF, 0xFE, 0xFD], false);
    assert_eq!(extract_office(&bad_text, OfficeKind::Docx), Err(ExtractError::InvalidUtf8));
    let mut corrupt = zip_with("word/document.xml", b"<w:t>abcdefgh</w:t>", true);
    let at = corrupt.windows(8).position(|w| w == b"abcdefgh").unwrap();
    corrupt[at] = b'X';
    assert_eq!(extract_office(&corrupt, OfficeKind::Docx), Err(ExtractError::UnreadablePart));
    let other = zip_with("word/other.xml", b"<w:t>skip</w:t>", false);
    assert_eq!(extract_office(&other, OfficeKind::Docx), Ok(String::new()));
    let sheet = zip_with("xl/sharedStrings.xml", b"<si><t>cell</t></si>", false);
    assert!(extract_office(&sheet, OfficeKind::Xlsx).unwrap().contains("cell"));
}

// ---- master file table ----

fn v2_record(id: u64, parent: u64, attrs: u32, filetime: i64, name: &str) -> Vec<u8> {
    let units: Vec<u16> = name.encode_utf16().collect();
    let len = 60 + units.len() * 2;
    let mut r = vec![0u8; len];
    r[0..4].copy_from_slice(&(len as u32).to_le_bytes());
    r[4..6].copy_from_slice(&2u16.to_le_bytes());
    r[8..16].copy_from_slice(&id.to_le_bytes());
    r[16..24].copy_from_slice(&parent.to_le_bytes());
    r[32..40].copy_from_slice(&filetime.to_le_bytes());
    r[52..56].copy_from_slice(&attrs.to_le_bytes());
    r[56..58].copy_from_slice(&((units.len() * 2) as u16).to_le_bytes());
    r[58..60].copy_from_slice(&60u16.to_le_bytes());
    for (k, u) in units.iter().enumerate() {
        r[60 + 2 * k..62 + 2 * k].copy_from_slice(&u.to_le_bytes());
    }
    r
}

#[test]
fn filetime_conversion() {
    assert_eq!(filetime_to_secs(FILETIME_EPOCH_DIFF + 10_000_000), 1);
    assert_eq!(filetime_to_secs(FILETIME_EPOCH_DIFF - 1), 0);
    assert_eq!(filetime_to_secs(0), 0);
}

#[test]
fn records_parse_by_version_and_stop_at_bad_length() {
    let ft = FILETIME_EPOCH_DIFF + 20_000_000;
    let a = v2_record(100, 5, 0x10, ft, "docs");
    let (id, node) = parse_one(&a, 2).unwrap();
    assert_eq!(id, 100);
    assert_eq!(node.parent, Some(5));
    assert_eq!(node.name, "docs");
    assert!(node.is_dir);
    assert_eq!(node.modified, 2);
    assert!(parse_one(&a, 4).is_none());
    assert!(parse_one(&v2_record(1, 0, 0, 0, ""), 2).is_none());

    let mut buf = a.clone();
    buf.extend_from_slice(&v2_record(200, 100, 0x20, ft, "a.txt"));
    buf.extend_from_slice(&[1, 0, 0, 0]);
    let recs = parse_enum_records(&buf);
    assert_eq!(recs.len(), 2);
    assert_eq!(recs[1].0, 200);
    assert_eq!(recs[1].1.parent, Some(100));
    assert!(!recs[1].1.is_dir);
    assert_eq!(utf16le(&[0x41, 0x00, 0x42]), "A");
}

#[test]
fn enumeration_answers() {
    let mut buf = 300u64.to_le_bytes().to_vec();
    buf.extend_from_slice(&v2_record(100, 5, 0, 0, "x"));
    let n = buf.len() as u32;
    match enum_step(0, true, None, &buf, n) {
        EnumStep::Batch { next, records, more } => {
            assert_eq!(next, 300);
            assert_eq!(records.len(), 1);
            assert!(more);
        }
        _ => panic!("expected a batch"),
    }
    match enum_step(300, true, None, &buf, n) {
        EnumStep::Batch { more, .. } => assert!(!more),
        _ => panic!("expected a batch"),
    }
    assert!(matches!(enum_step(0, false, Some(ERROR_HANDLE_EOF), &buf, 0), EnumStep::Done));
    assert!(matches!(enum_step(0, false, Some(5), &buf, n), EnumStep::Failed));
    assert!(matches!(enum_step(0, false, Some(ERROR_MORE_DATA), &buf, 8), EnumStep::Failed));
    assert!(matches!(enum_step(0, false, Some(ERROR_MORE_DATA), &buf, n), EnumStep::Batch { .. }));
    assert!(matches!(enum_step(0, true, None, &buf, 4), EnumStep::Done));
}

#[test]
fn enumeration_marks_folders_by_attribute() {
    let mut buf = 50u64.to_le_bytes().to_vec();
    buf.extend_from_slice(&v2_record(10, 5, 0x10, 0, "dir"));
    buf.extend_from_slice(&v2_record(11, 10, 0x20, 0, "file.txt"));
    let n = buf.len() as u32;
    match enum_step(0, true, None, &buf, n) {
        EnumStep::Batch { records, .. } => {
            assert_eq!(records.len(), 2);
            assert!(records[0].1.is_dir);
            assert!(!records[1].1.is_dir);
        }
        _ => panic!("expected a batch"),
    }
}

#[test]
fn volumes_and_paths() {
    assert_eq!(volume_device_path(r"c:\"), Some(r"\\.\C:".to_string()));
    assert_eq!(volume_device_path(r"\\?\d:"), Some(r"\\.\D:".to_string()));
    assert_eq!(volume_device_path("nope"), None);
    assert_eq!(volume_root_path(r"\\.\e:"), r"E:\".to_string());
    assert_eq!(volume_root_path("share"), "share".to_string());
    let mut boot = vec![0u8; 16];
    boot[3..11].copy_from_slice(b"NTFS    ");
    assert!(is_ntfs_boot(&boot));
    assert!(!is_ntfs_boot(&boot[..10]));

    let mut nodes = HashMap::new();
    nodes.insert(5u64, MftNode { parent: Some(5), name: ".".into(), is_dir: true, attributes: 0x10, modified: 0 });
    nodes.insert(100u64, MftNode { parent: Some(5), name: "docs".into(), is_dir: true, attributes: 0x10, modified: 1 });
    nodes.insert(200u64, MftNode { parent: Some(100), name: "a.txt".into(), is_dir: false, attributes: 0x20, modified: 2 });
    assert_eq!(resolve_path(200, &nodes, r"C:\"), r"C:\docs\a.txt");
    assert_eq!(resolve_path(5, &nodes, r"C:\"), r"C:\");
    let recs = mft_records(&vec![200, 5], &nodes, r"C:\");
    assert_eq!(recs[0].path, r"C:\docs\a.txt");
    assert_eq!(recs[0].parent_id, Some(100));
    assert_eq!(recs[0].attributes, 0x20);
    assert_eq!(recs[1].parent_id, None);
}

// ---- journal and watcher ----

#[test]
fn journal_reasons_delete_wins_and_old_name_alone_is_nothing() {
    let mut u = UsnRecord {
        file_id: 9,
        parent_id: Some(1),
        reason: USN_REASON_RENAME_OLD_NAME,
        filename: "a".into(),
        path: r"C:\a".into(),
        size: 0,
        modified: 0,
        is_dir: false,
    };
    assert!(usn_record_to_event(&u).is_none());
    u.reason = USN_REASON_FILE_DELETE | USN_REASON_RENAME_NEW_NAME;
    assert_eq!(usn_record_to_event(&u), Some(CatalogEvent::Delete { id: 9 }));
    assert_eq!(name_from(r"C:\docs\x.txt"), "x.txt");
}

// ---- walking ----

#[test]
fn walk_entries_get_ids_and_decisions() {
    let mut c = Catalog::new();
    c.insert(rec(41, "old", r"C:\old", 0, 0, false));
    let mut next = first_free_id(&c);
    assert_eq!(next, 42);
    let roots = vec![r"C:\docs".to_string()];
    let dir = WalkEntry { path: r"C:\docs\.git".into(), name: ".git".into(), is_dir: true, len: 4096, modified: None };
    let s = walk_entry(&mut c, dir, None, &roots, &mut next);
    assert_eq!(s.id, 42);
    assert!(!s.descend && !s.index_body);
    assert_eq!(c.get(42).unwrap().size, 0);
    let file = WalkEntry { path: r"C:\docs\a.md".into(), name: "a.md".into(), is_dir: false, len: 10, modified: Some(7) };
    let s = walk_entry(&mut c, file, Some(42), &roots, &mut next);
    assert!(s.index_body && !s.descend);
    assert_eq!(next, 44);
    assert_eq!(c.get(43).unwrap().parent_id, Some(42));
    assert!(under_any(r"C:\docs\x", &roots));
    assert!(!under_any(r"C:\docsx\x", &roots));
    assert!(is_skipped_dir_name("node_modules"));
    assert!(!is_skipped_dir_name("src"));
}

// ---- configuration ----

#[test]
fn config_errors_name_the_bad_line() {
    assert_eq!(
        parse_engine_config("name_root=C:\\\nbogus").err(),
        Some("invalid config line: bogus".to_string())
    );
    assert_eq!(
        parse_engine_config("colour=blue").err(),
        Some("unknown config key: colour".to_string())
    );
    assert_eq!(
        parse_engine_config("# only a comment\ncontent_root=C:\\d").err(),
        Some("missing name_root".to_string())
    );
    let ok = parse_engine_config(" name_root = D:\\x \n\ncontent_root=a\ncontent_root=b").unwrap();
    assert_eq!(ok.name_root, "D:\\x");
    assert_eq!(ok.content_roots, vec!["a".to_string(), "b".to_string()]);
}

#[test]
fn content_field_round_trips_through_the_window() {
    let cfg = EngineConfig {
        name_root: r"C:\".to_string(),
        content_roots: vec![r"C:\a".to_string(), r"D:\b c".to_string()],
    };
    let (_, field) = apply_config_to_fields(&cfg);
    assert_eq!(split_content_roots(&field), cfg.content_roots);
    assert_eq!(split_content_roots(" ; x ;; y"), vec!["x".to_string(), "y".to_string()]);
    assert!(split_content_roots("").is_empty());
}

// ---- window decisions ----

#[test]
fn keys_act_on_the_selected_or_first_result() {
    assert_eq!(action_index(None, 3), Some(0));
    assert_eq!(action_index(Some(2), 3), Some(2));
    assert_eq!(action_index(Some(3), 3), None);
    assert_eq!(action_index(None, 0), None);
    assert_eq!(selection_after_refresh(Some(1), 2), Some(1));
    assert_eq!(selection_after_refresh(Some(2), 2), None);
    assert_eq!(selection_after_refresh(None, 5), None);
    assert!(is_image(r"C:\p\Photo.JPEG"));
    assert!(!is_image(r"C:\p\notes.txt"));
}

#[test]
fn snippet_segments_alternate_plain_and_highlighted() {
    let (spans, segs) = snippet_segments(10, &vec![(6, 8), (1, 3)]);
    assert_eq!(spans, vec![(1, 3), (6, 8)]);
    assert_eq!(
        segs,
        vec![(0, 1, false), (1, 3, true), (3, 6, false), (6, 8, true), (8, 10, false)]
    );
    let (_, clipped) = snippet_segments(5, &vec![(3, 9)]);
    assert_eq!(clipped, vec![(0, 3, false), (3, 5, true)]);
    let (_, none) = snippet_segments(4, &vec![]);
    assert_eq!(none, vec![(0, 4, false)]);
}

// ---- registry ----

#[test]
fn registry_key_and_output() {
    assert_eq!(preview_ext_key_exec(r"C:\a\X.PDF"), Some(".pdf".to_string()));
    assert_eq!(preview_ext_key_exec(r"C:\a\noext"), None);
    assert_eq!(
        preview_registry_key_exec(".pdf"),
        format!("HKCR\\.pdf\\shellex\\{PREVIEW_HANDLER_SHELLEX}")
    );
    let value_line = "\r\n    (Default)    REG_SZ    {dc6efb56-9cfa-464d-8880-44885d7dc193}\r\n";
    assert_eq!(
        clsid_from_reg_output(value_line),
        Some("{DC6EFB56-9CFA-464D-8880-44885D7DC193}".to_string())
    );
    // The first line holding a well-formed CLSID wins, here the key's own.
    let full = "\r\nHKEY_CLASSES_ROOT\\.pdf\\shellex\\{8895b1c6-b41f-4c1c-a562-0d564250836f}\r\n    (Default)    REG_SZ    {dc6efb56-9cfa-464d-8880-44885d7dc193}\r\n";
    assert_eq!(
        clsid_from_reg_output(full),
        Some("{8895B1C6-B41F-4C1C-A562-0D564250836F}".to_string())
    );
    assert_eq!(clsid_from_reg_output("nothing"), None);
}

// ---- command line output ----

fn cli_for(args: &[&str]) -> Cli {
    parse_args(&args.iter().map(|s| s.to_string()).collect::<Vec<_>>()).unwrap()
}

#[test]
fn output_follows_count_json_quiet() {
    let hits = vec![hit("a", 0, 0, 0), hit("b", 0, 0, 0)];
    assert_eq!(output_text(&cli_for(&["--count", "--json"]), &hits), Some("2".to_string()));
    assert_eq!(output_text(&cli_for(&["--json"]), &hits), None);
    assert_eq!(output_text(&cli_for(&["--quiet"]), &hits), Some(String::new()));
    assert_eq!(
        output_text(&cli_for(&[]), &hits),
        Some("C:\\d\\a\nC:\\d\\b".to_string())
    );
    assert!(!prints_output(&cli_for(&["--quiet"])));
    assert!(prints_output(&cli_for(&["--quiet", "--count"])));
    assert_eq!(decimal_exec(0), vec!['0']);
    assert_eq!(decimal_exec(1234567890), chars_of("1234567890"));
}

#[test]
fn flags_override_the_configuration() {
    let cfg = EngineConfig { name_root: "C:\\cfg".into(), content_roots: vec!["C:\\c1".into()] };
    let (n, c) = resolve_roots(&cli_for(&["--name-root", "D:\\x"]), Some(cfg));
    assert_eq!(n, Some("D:\\x".to_string()));
    assert_eq!(c, vec!["C:\\c1".to_string()]);
    let cfg = EngineConfig { name_root: "C:\\cfg".into(), content_roots: vec![] };
    let (n, c) = resolve_roots(&cli_for(&["--content-root", "E:\\y"]), Some(cfg));
    assert_eq!(n, Some("C:\\cfg".to_string()));
    assert_eq!(c, vec!["E:\\y".to_string()]);
    let (n, c) = resolve_roots(&cli_for(&[]), None);
    assert_eq!(n, None);
    assert!(c.is_empty());
}

#[test]
fn hits_that_rank_the_same_keep_their_order() {
    let mut a = hit("same.txt", 1, NOW, 0);
    a.record.path = r"C:\one\same.txt".to_string();
    let mut b = hit("same.txt", 1, NOW, 0);
    b.record.path = r"C:\two\same.txt".to_string();
    let mut hits = vec![a.clone(), b.clone(), hit("other.txt", 1, NOW - 100, 0)];
    flashseek::rank::rank_hits(&mut hits, NOW);
    let paths: Vec<&str> = hits.iter().map(|h| h.record.path.as_str()).collect();
    assert_eq!(paths, vec![r"C:\one\same.txt", r"C:\two\same.txt", r"C:\d\other.txt"]);
    let mut hits = vec![b, a];
    flashseek::rank::rank_hits(&mut hits, NOW);
    assert_eq!(hits[0].record.path, r"C:\two\same.txt");
}

#[test]
fn atoms_filters_snippets_and_window() {
    let q = parse_query("alpha|beta", NOW);
    let atom = &q.must[0];
    assert!(atom.matches_text("xx BETA yy"));
    assert!(!atom.matches_text("gamma"));
    assert_eq!(atom.terms(), vec!["alpha".to_string(), "beta".to_string()]);
    assert!(flashseek::query::is_filter("EXT:pdf"));
    assert!(flashseek::query::is_filter("size:>1"));
    assert!(!flashseek::query::is_filter("report"));
    assert_eq!(flashseek::rank::recency_window(), 604_800);
    let mut idx = ContentIndex::new();
    idx.index(r"C:\n.txt".to_string(), "the 세금 note".to_string());
    let sn = idx.snippet_for(r"C:\n.txt", &["세금".to_string()]).unwrap();
    assert_eq!(sn.text, "the 세금 note");
    assert_eq!(sn.highlights, vec![(4, 10)]);
    assert!(idx.snippet_for(r"C:\other.txt", &["세금".to_string()]).is_none());
}

#[test]
fn get_mut_changes_a_record_in_place() {
    let mut c = Catalog::new();
    c.insert(rec(1, "alpha.txt", r"C:\alpha.txt", 1, 0, false));
    c.insert(rec(2, "beta.txt", r"C:\beta.txt", 1, 0, false));
    {
        let r = c.get_mut(2).unwrap();
        r.size = 99;
        r.modified = 5;
    }
    assert_eq!(c.get(2).unwrap().size, 99);
    assert_eq!(c.get(2).unwrap().modified, 5);
    assert_eq!(c.names_with_prefix("be").len(), 1);
    assert!(c.get_mut(3).is_none());
    assert_eq!(c.len(), 2);
}

#[test]
fn unicode_case_is_folded_in_words_terms_and_snippets() {
    assert_eq!(tokenize_words("ÄRGER Straße"), vec!["ärger".to_string(), "straße".to_string()]);
    let mut c = Catalog::new();
    c.insert(rec(1, "Ärger.txt", r"C:\d\Ärger.txt", 1, NOW, false));
    c.insert(rec(2, "other.txt", r"C:\d\other.txt", 1, NOW, false));
    let content = ContentIndex::new();
    assert_eq!(names(&search(&c, &content, &parse_query("ärger", NOW), NOW)), vec!["Ärger.txt"]);
    assert_eq!(names(&search(&c, &content, &parse_query("ÄR*", NOW), NOW)), vec!["Ärger.txt"]);
    let s = make_snippet("Großes ÄRGER hier", &["ärger".to_string()], 80).unwrap();
    let (a, b) = s.highlights[0];
    assert_eq!(&s.text[a..b], "ÄRGER");
    assert_eq!(decode_plain_bytes("héllo".as_bytes()).unwrap(), "héllo");
}

#[test]
fn filter_spellings_anywhere_send_input_to_the_query_language() {
    let q = compile_nl("pdf xdm:a", NOW);
    let raws: Vec<String> = q
        .must
        .iter()
        .map(|a| match a {
            Atom::Term(p) => p.raw.clone(),
            Atom::Or(_) => panic!("unexpected OR"),
        })
        .collect();
    assert_eq!(raws, vec!["pdf", "xdm:a"]);
    assert!(q.extensions.is_empty());
    let q = compile_nl("report EXT:pdf", NOW);
    assert_eq!(q.extensions, vec!["pdf".to_string()]);
    assert_eq!(q.must.len(), 1);
    let q = compile_nl("사진 attribute", NOW);
    assert_eq!(q.extensions, vec!["png".to_string(), "jpg".to_string(), "jpeg".to_string()]);
}

#[test]
fn rtf_control_words_drop_their_parameters() {
    assert_eq!(flashseek::extract::extract_rtf(r"{\rtf1\ansi hello \b 세금\b0 }"), "hello 세금");
    assert_eq!(flashseek::extract::extract_rtf(r"{\fs-20 big \par\pard x}"), "big x");
    assert_eq!(flashseek::extract::extract_rtf(r"a\\b \- c"), r"a\b - c");
}

#[test]
fn size_numbers_take_exponents_infinity_and_nan() {
    assert_eq!(parse_query("size:1e3kb", NOW).size, Some(SizeFilter::Eq(1_024_000)));
    assert_eq!(parse_query("size:2.5E-1kb", NOW).size, Some(SizeFilter::Eq(256)));
    assert_eq!(parse_query("size:>INF", NOW).size, Some(SizeFilter::Gt(u64::MAX)));
    assert_eq!(parse_query("size:infinity", NOW).size, Some(SizeFilter::Eq(u64::MAX)));
    assert_eq!(parse_query("size:-inf", NOW).size, Some(SizeFilter::Eq(0)));
    assert_eq!(parse_query("size:nan", NOW).size, Some(SizeFilter::Eq(0)));
    assert_eq!(parse_query("size:1e400", NOW).size, Some(SizeFilter::Eq(u64::MAX)));
    assert_eq!(parse_query("size:0e400", NOW).size, Some(SizeFilter::Eq(0)));
    assert_eq!(parse_query("size:5e-20gb", NOW).size, Some(SizeFilter::Eq(0)));
    assert_eq!(parse_query("size:12345e-2", NOW).size, Some(SizeFilter::Eq(123)));
    assert_eq!(parse_query("size:.5e1", NOW).size, Some(SizeFilter::Eq(5)));
    assert_eq!(parse_query("size:1e", NOW).size, None);
    assert_eq!(parse_query("size:e3", NOW).size, None);
}

#[test]
fn word_lists_keep_indexing_order_and_remove_undoes_index() {
    let mut idx = ContentIndex::new();
    idx.index(r"C:\a.txt".to_string(), "tax one".to_string());
    idx.index(r"C:\b.txt".to_string(), "tax two".to_string());
    idx.index(r"C:\c.txt".to_string(), "tax three".to_string());
    let before = idx.paths_for_word("tax");
    assert_eq!(before, vec![r"C:\a.txt".to_string(), r"C:\b.txt".to_string(), r"C:\c.txt".to_string()]);
    idx.index(r"C:\a.txt".to_string(), "tax again".to_string());
    assert_eq!(
        idx.paths_for_word("tax"),
        vec![r"C:\b.txt".to_string(), r"C:\c.txt".to_string(), r"C:\a.txt".to_string()]
    );
    let before = idx.paths_for_word("tax");
    idx.index(r"C:\new.txt".to_string(), "tax new".to_string());
    idx.remove(r"C:\new.txt");
    assert_eq!(idx.paths_for_word("tax"), before);
    assert!(idx.paths_for_word("new").is_empty());
}

#[test]
fn steps_after_lowercasing() {
    let (p, l) = flashseek::content::first_term_hit(
        "alpha 세금 omega",
        &["".to_string(), "MISSING".to_string(), "세금".to_string()],
        &["".to_string(), "missing".to_string(), "세금".to_string()],
    )
    .unwrap();
    assert_eq!((p, l), (6, 6));
    assert_eq!(
        flashseek::content::highlight_ranges("Tax TAX", "tax tax", "tax"),
        vec![(0, 3), (4, 7)]
    );
    let mut q = flashseek::Query::default();
    flashseek::nl::nl_word_with_lower(&mut q, &chars_of("PDF"), &chars_of("pdf"), NOW);
    assert_eq!(q.extensions, vec!["pdf".to_string()]);
    let toks = vec![chars_of("지난"), chars_of("주"), chars_of("세금")];
    let mut q = flashseek::Query::default();
    let k = flashseek::nl::nl_step_with_lower(&mut q, &toks, 0, &chars_of("지난"), NOW);
    assert_eq!(k, 2);
    assert_eq!(q.modified_after, Some(NOW - 7 * 86_400));
}

#[test]
fn engine_apply_equals_catalog_apply() {
    let mut engine = Engine::new();
    let mut c = Catalog::new();
    let events = vec![
        CatalogEvent::Create(rec(1, "docs", r"C:\docs", 0, 0, true)),
        CatalogEvent::Create(rec(2, "a.txt", r"C:\docs\a.txt", 1, 0, false)),
        CatalogEvent::Rename { id: 1, new_name: "work".into(), new_path: r"C:\work".into() },
        CatalogEvent::Delete { id: 9 },
    ];
    for e in events {
        engine.apply(e.clone());
        c.apply(e);
    }
    assert_eq!(engine.catalog.records(), c.records());
    assert_eq!(names(&engine.query("a.txt", NOW)), vec!["a.txt"]);
    assert_eq!(engine.query("a.txt", NOW)[0].record.path, r"C:\work\a.txt");
}
