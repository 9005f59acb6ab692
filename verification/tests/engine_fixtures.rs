//! End-to-end runs over in-memory folder trees: each tree is walked with
//! `walk_entry`, bodies are extracted with `extract_from_bytes`, and the
//! resulting engine is queried.

use std::io::{Cursor, Write};

use flashseek::compile_nl;
use flashseek::engine::parse_engine_config;
use flashseek::extract::{ext_of, extract_from_bytes, ExtractError};
use flashseek::walk::{first_free_id, walk_entry, WalkEntry};
use flashseek::{CatalogEvent, Engine, FileRecord, Hit, Query};
use zip::write::SimpleFileOptions;
use zip::ZipWriter;

const NOW_SECS: u64 = 1_800_000_000;
const ROOT: &str = r"C:\fx";

fn now() -> u64 {
    NOW_SECS
}

fn days_ago(days: u64) -> u64 {
    now() - days * 86400
}

fn hours_ago(hours: u64) -> u64 {
    now() - hours * 3600
}

/// A file of the tree: full path, bytes, modification time.
type FileEntry = (String, Vec<u8>, u64);

fn at(rel: &str) -> String {
    format!("{ROOT}\\{rel}")
}

fn txt(rel: &str, body: &str, modified: u64) -> FileEntry {
    (at(rel), body.as_bytes().to_vec(), modified)
}

fn pdf(rel: &str, body_token: &str, modified: u64) -> FileEntry {
    let stream = format!("BT /F1 12 Tf 10 100 Td ({body_token}) Tj ET");
    let doc = format!(
        "%PDF-1.1\n1 0 obj << /Type /Catalog /Pages 2 0 R >> endobj\n2 0 obj << /Type /Pages /Kids [3 0 R] /Count 1 >> endobj\n3 0 obj << /Type /Page /Parent 2 0 R /MediaBox [0 0 200 200] /Contents 4 0 R /Resources << /Font << /F1 5 0 R >> >> >> endobj\n4 0 obj << /Length {} >> stream\n{stream}\nendstream\nendobj\n5 0 obj << /Type /Font /Subtype /Type1 /BaseFont /Helvetica >> endobj\n{body_token}\n%%EOF\n",
        stream.len()
    );
    (at(rel), doc.into_bytes(), modified)
}

fn office_bytes(inner: &str, xml: &str) -> Vec<u8> {
    let mut zip = ZipWriter::new(Cursor::new(Vec::new()));
    let opt = SimpleFileOptions::default();
    zip.start_file("[Content_Types].xml", opt).unwrap();
    zip.write_all(b"<?xml version=\"1.0\"?><Types></Types>").unwrap();
    zip.start_file(inner, opt).unwrap();
    zip.write_all(xml.as_bytes()).unwrap();
    zip.finish().unwrap().into_inner()
}

fn docx(rel: &str, body_token: &str, modified: u64) -> FileEntry {
    let xml = format!(
        "<?xml version=\"1.0\"?><w:document xmlns:w=\"http://schemas.openxmlformats.org/wordprocessingml/2006/main\"><w:body><w:p><w:r><w:t>{body_token}</w:t></w:r></w:p></w:body></w:document>"
    );
    (at(rel), office_bytes("word/document.xml", &xml), modified)
}

fn xlsx(rel: &str, body_token: &str, modified: u64) -> FileEntry {
    let xml = format!(
        "<?xml version=\"1.0\"?><sst xmlns=\"http://schemas.openxmlformats.org/spreadsheetml/2006/main\" count=\"1\" uniqueCount=\"1\"><si><t>{body_token}</t></si></sst>"
    );
    (at(rel), office_bytes("xl/sharedStrings.xml", &xml), modified)
}

fn pptx(rel: &str, body_token: &str, modified: u64) -> FileEntry {
    let xml = format!(
        "<?xml version=\"1.0\"?><p:sld xmlns:a=\"http://schemas.openxmlformats.org/drawingml/2006/main\" xmlns:p=\"http://schemas.openxmlformats.org/presentationml/2006/main\"><p:cSld><p:spTree><p:sp><p:txBody><a:p><a:r><a:t>{body_token}</a:t></a:r></a:p></p:txBody></p:sp></p:spTree></p:cSld></p:sld>"
    );
    (at(rel), office_bytes("ppt/slides/slide1.xml", &xml), modified)
}

fn xlsx_plain(rel: &str, body_token: &str, modified: u64) -> FileEntry {
    let xml = format!("<?xml version=\"1.0\"?><sst><si><t>{body_token}</t></si></sst>");
    (at(rel), office_bytes("xl/sharedStrings.xml", &xml), modified)
}

fn pptx_plain(rel: &str, body_token: &str, modified: u64) -> FileEntry {
    let xml = format!(
        "<?xml version=\"1.0\"?><p:sld><p:cSld><p:spTree><a:t>{body_token}</a:t></p:spTree></p:cSld></p:sld>"
    );
    (at(rel), office_bytes("ppt/slides/slide1.xml", &xml), modified)
}

fn html(rel: &str, body_token: &str) -> FileEntry {
    let doc = format!(
        "<!DOCTYPE html><html><head><title>notes</title></head><body><h1>memo</h1><p>secret <b>{body_token}</b> only in body</p></body></html>"
    );
    (at(rel), doc.into_bytes(), now())
}

/// The text of a file, the way the engine extracts it.
fn extract_text(file: &FileEntry) -> Result<String, ExtractError> {
    extract_from_bytes(&ext_of(&file.0).unwrap(), &file.1)
}

/// Walks the folder `dir` of the in-memory tree `files`.
fn walk(
    engine: &mut Engine,
    dir: &str,
    parent: Option<u64>,
    content_roots: &[String],
    files: &[FileEntry],
    next_id: &mut u64,
) {
    let prefix = format!("{dir}\\");
    let mut children: Vec<(String, bool)> = Vec::new();
    for (p, _, _) in files {
        if let Some(rest) = p.strip_prefix(&prefix) {
            let (first, is_file) = match rest.find('\\') {
                Some(i) => (&rest[..i], false),
                None => (rest, true),
            };
            if !children.iter().any(|(n, _)| n == first) {
                children.push((first.to_string(), is_file));
            }
        }
    }
    children.sort();
    for (name, is_file) in children {
        let path = format!("{prefix}{name}");
        let file = files.iter().find(|f| f.0 == path);
        let (len, modified) = match (is_file, file) {
            (true, Some(f)) => (f.1.len() as u64, f.2),
            _ => (0, now()),
        };
        let entry = WalkEntry {
            path: path.clone(),
            name: name.clone(),
            is_dir: !is_file,
            len,
            modified: Some(modified),
        };
        let step = walk_entry(&mut engine.catalog, entry, parent, content_roots, next_id);
        if step.index_body {
            if let Ok(body) = extract_text(file.unwrap()) {
                engine.content.index(path.clone(), body);
            }
        }
        if step.descend {
            walk(engine, &path, Some(step.id), content_roots, files, next_id);
        }
    }
}

fn ingest_tree(engine: &mut Engine, name_root: &str, content_roots: &[String], files: &[FileEntry]) {
    let mut next_id = first_free_id(&engine.catalog);
    walk(engine, name_root, None, content_roots, files, &mut next_id);
}

fn from_roots(name_root: &str, content_roots: &[String], files: &[FileEntry]) -> Engine {
    let mut engine = Engine::new();
    ingest_tree(&mut engine, name_root, content_roots, files);
    engine
}

fn whole_tree(files: &[FileEntry]) -> Engine {
    from_roots(ROOT, &[ROOT.to_string()], files)
}

fn names(hits: &[Hit]) -> Vec<String> {
    hits.iter().map(|h| h.record.name.clone()).collect()
}

// ---- gating ----

fn corpus() -> Engine {
    let files = vec![
        txt("notes\\alpha-report.txt", "nothing special", days_ago(1)),
        txt("notes\\beta-memo.txt", "hello world", days_ago(1)),
        txt("notes\\gamma.log", "tmp scratch", days_ago(1)),
        txt(
            "docs\\body-only.txt",
            "the secret token unicorn lives only in the body",
            days_ago(1),
        ),
        pdf("docs\\invoice-march.pdf", "세금", days_ago(2)),
        pdf("docs\\old-invoice.pdf", "세금", days_ago(30)),
        pdf("docs\\wrong-type.pdf", "nope", days_ago(2)),
        txt("docs\\tax-note.txt", "세금 but not a pdf", days_ago(2)),
        docx("docs\\minutes.docx", "unicorn-office", days_ago(1)),
        txt("big\\huge.bin", &"x".repeat(2 * 1024 * 1024), days_ago(1)),
        txt("big\\tiny.bin", "y", days_ago(1)),
    ];
    whole_tree(&files)
}

#[test]
fn partial_name_hit_from_complete_catalog() {
    let engine = corpus();
    let hits = engine.query("alpha", now());
    assert!(
        names(&hits).iter().any(|n| n == "alpha-report.txt"),
        "partial name should hit, got {hits:?}"
    );
    assert!(engine.catalog.len() >= 10, "catalog was {:?}", engine.catalog.len());
}

#[test]
fn and_or_not_wildcard_ext_size_date() {
    let engine = corpus();

    let and = engine.query("alpha report", now());
    assert!(names(&and).contains(&"alpha-report.txt".into()));
    assert!(!names(&and).contains(&"beta-memo.txt".into()));

    let or_hits = engine.query("alpha|beta", now());
    let got = names(&or_hits);
    assert!(got.contains(&"alpha-report.txt".into()));
    assert!(got.contains(&"beta-memo.txt".into()));

    let not = engine.query("memo !beta", now());
    assert!(!names(&not).contains(&"beta-memo.txt".into()));

    let wild = engine.query("alpha*", now());
    assert!(names(&wild).contains(&"alpha-report.txt".into()));

    let ext = engine.query("ext:pdf", now());
    assert!(names(&ext).iter().all(|n| n.ends_with(".pdf")));
    assert!(names(&ext).contains(&"invoice-march.pdf".into()));

    let size = engine.query("size:>1mb", now());
    assert!(names(&size).contains(&"huge.bin".into()));
    assert!(!names(&size).contains(&"tiny.bin".into()));

    let dm = engine.query("dm:lastweek ext:pdf", now());
    let dm_names = names(&dm);
    assert!(dm_names.contains(&"invoice-march.pdf".into()));
    assert!(!dm_names.contains(&"old-invoice.pdf".into()));
}

#[test]
fn body_only_plain_text_and_office() {
    let engine = corpus();
    let txt_hits = engine.query("unicorn", now());
    assert!(
        names(&txt_hits).contains(&"body-only.txt".into()),
        "body-only txt, got {:?}",
        names(&txt_hits)
    );
    assert!(
        !txt_hits
            .iter()
            .find(|h| h.record.name == "body-only.txt")
            .unwrap()
            .name_match
    );

    let docx_hits = engine.query("unicorn-office", now());
    assert!(
        names(&docx_hits).contains(&"minutes.docx".into()),
        "body-only docx, got {:?}",
        names(&docx_hits)
    );
}

#[test]
fn korean_nl_last_week_tax_pdf_body_only() {
    let q = compile_nl("지난주 세금 pdf", now());
    assert_eq!(q.extensions, vec!["pdf".to_string()]);
    assert!(q.modified_after.is_some());

    let engine = corpus();
    let hits = engine.query("지난주 세금 pdf", now());
    let hit = hits
        .iter()
        .find(|h| h.record.name == "invoice-march.pdf")
        .expect("in-window pdf whose body has 세금");
    assert!(!hit.record.name.contains("세금"), "name must not contain the token");
    let sn = hit.snippet.as_ref().expect("preview snippet");
    assert!(sn.text.contains("세금"), "snippet was {:?}", sn.text);
    assert!(
        sn.highlights.iter().any(|&(a, b)| &sn.text[a..b] == "세금"),
        "highlights {:?}",
        sn.highlights
    );

    assert!(
        !hits.iter().any(|h| h.record.name == "old-invoice.pdf"),
        "outside window must not match"
    );
    assert!(
        !hits.iter().any(|h| h.record.name == "tax-note.txt"),
        "wrong ext must not match"
    );
}

#[test]
fn live_apply_create_delete_rename() {
    let mut engine = corpus();
    assert!(engine.query("brand-new", now()).is_empty());

    let rec = FileRecord {
        id: 9_001,
        parent_id: None,
        name: "brand-new.txt".into(),
        path: String::from("C:\\virt\\brand-new.txt"),
        size: 3,
        modified: now(),
        is_dir: false,
        attributes: 0,
    };
    engine.apply(CatalogEvent::Create(rec.clone()));
    assert!(engine
        .query("brand-new", now())
        .iter()
        .any(|h| h.record.name == "brand-new.txt"));

    engine.apply(CatalogEvent::Rename {
        id: 9_001,
        new_name: "renamed-now.txt".into(),
        new_path: String::from("C:\\virt\\renamed-now.txt"),
    });
    assert!(engine.query("brand-new", now()).is_empty());
    assert!(engine
        .query("renamed-now", now())
        .iter()
        .any(|h| h.record.name == "renamed-now.txt"));

    engine.apply(CatalogEvent::Delete { id: 9_001 });
    assert!(engine.query("renamed-now", now()).is_empty());
}

#[test]
fn ranking_prefers_name_over_path() {
    let engine = corpus();
    let hits = engine.query("alpha", now());
    assert_eq!(hits[0].record.name, "alpha-report.txt");
    assert!(hits[0].name_match);
}

#[test]
fn extractor_reads_pdf_and_docx_bodies() {
    let p = pdf("a.pdf", "세금", now());
    let d = docx("a.docx", "unicorn-office", now());
    assert!(extract_text(&p).unwrap().contains("세금"));
    assert!(extract_text(&d).unwrap().contains("unicorn-office"));
}

// ---- html, xlsx and pptx bodies ----

fn assert_body_only_hit(engine: &Engine, token: &str, file_name: &str) {
    assert!(!file_name.contains(token), "token {token} must not appear in filename {file_name}");
    let hits = engine.query(token, now());
    let hit = hits
        .iter()
        .find(|h| h.record.name == file_name)
        .unwrap_or_else(|| panic!("expected {file_name} in {:?}", names(&hits)));
    assert!(!hit.name_match, "name must not match for {file_name}");
    assert!(hit.content_match, "content must match for {file_name}");
    let sn = hit.snippet.as_ref().expect("preview snippet");
    assert!(sn.text.contains(token), "snippet for {file_name} was {:?}", sn.text);
}

#[test]
fn html_extract_and_body_only_query() {
    let token = "htmlbodytoken";
    let file = html("page.html", token);
    let extracted = extract_text(&file).unwrap();
    assert!(extracted.contains(token), "html extraction missed token, got {extracted:?}");
    assert!(!extracted.contains("<b>"), "html tags should be stripped, got {extracted:?}");

    let engine = whole_tree(&[file]);
    assert_body_only_hit(&engine, token, "page.html");
}

#[test]
fn xlsx_extract_and_body_only_query() {
    let token = "xlsxsharedcell";
    let file = xlsx("sheet.xlsx", token, now());
    let extracted = extract_text(&file).unwrap();
    assert!(extracted.contains(token), "xlsx extraction missed token, got {extracted:?}");

    let engine = whole_tree(&[file]);
    assert_body_only_hit(&engine, token, "sheet.xlsx");
}

#[test]
fn pptx_extract_and_body_only_query() {
    let token = "pptxslidetoken";
    let file = pptx("deck.pptx", token, now());
    let extracted = extract_text(&file).unwrap();
    assert!(extracted.contains(token), "pptx extraction missed token, got {extracted:?}");

    let engine = whole_tree(&[file]);
    assert_body_only_hit(&engine, token, "deck.pptx");
}

#[test]
fn xml_body_only_hit() {
    let file = txt("note.xml", "<root><item>zebratok</item></root>", now());
    assert!(extract_text(&file).unwrap().contains("zebratok"));
    let engine = whole_tree(&[file]);
    let hits = engine.query("zebratok", now());
    assert!(
        hits.iter()
            .any(|h| h.record.name == "note.xml" && h.content_match && !h.name_match),
        "{:?}",
        names(&hits)
    );
}

#[test]
fn empty_query_lists_the_complete_catalog() {
    let files = vec![txt("a.txt", "a", now()), txt("b.log", "b", now())];
    let engine = from_roots(ROOT, &[], &files);
    let hits = engine.query("", now());
    let got = names(&hits);
    assert!(got.contains(&"a.txt".to_string()), "{got:?}");
    assert!(got.contains(&"b.log".to_string()), "{got:?}");
    assert_eq!(hits.len(), engine.catalog.len());
}

#[test]
fn extract_text_strips_utf8_bom() {
    let mut body = vec![0xEF, 0xBB, 0xBF];
    body.extend_from_slice(b"bomtoken");
    let file = (at("note.txt"), body, now());
    let text = extract_text(&file).unwrap();
    assert_eq!(text, "bomtoken");
    assert!(text.contains("bomtoken"));
    assert!(!text.starts_with('\u{feff}'));
}

// ---- skipped folders ----

fn has_name(engine: &Engine, name: &str) -> bool {
    engine.catalog.iter().any(|r| r.name == name)
}

fn catalog_names(engine: &Engine) -> Vec<String> {
    engine.catalog.iter().map(|r| r.name.clone()).collect()
}

fn git_tree() -> Vec<FileEntry> {
    vec![txt(".git\\HEAD", "ref: refs/heads/main", now()), txt("keep.txt", "keep", now())]
}

#[test]
fn ingest_skips_git_children_keeps_sibling_files() {
    let mut engine = Engine::new();
    ingest_tree(&mut engine, ROOT, &[], &git_tree());
    let got = catalog_names(&engine);
    assert!(has_name(&engine, "keep.txt"), "{got:?}");
    assert!(!has_name(&engine, "HEAD"), "{got:?}");
}

#[test]
fn name_root_at_git_still_indexes_children() {
    let mut engine = Engine::new();
    ingest_tree(&mut engine, &at(".git"), &[], &git_tree());
    let got = catalog_names(&engine);
    assert!(has_name(&engine, "HEAD"), "{got:?}");
}

#[test]
fn ingest_skips_node_modules_svn_and_hg_children() {
    let files = vec![
        txt("node_modules\\pkg.js", "module.exports = 1", now()),
        txt(".svn\\entries", "svn", now()),
        txt(".hg\\dirstate", "hg", now()),
        txt("keep.txt", "keep", now()),
    ];
    let mut engine = Engine::new();
    ingest_tree(&mut engine, ROOT, &[], &files);
    let got = catalog_names(&engine);
    assert!(has_name(&engine, "keep.txt"), "{got:?}");
    assert!(!has_name(&engine, "pkg.js"), "{got:?}");
    assert!(!has_name(&engine, "entries"), "{got:?}");
    assert!(!has_name(&engine, "dirstate"), "{got:?}");
}

// ---- configuration file ----

#[test]
fn from_config_file_indexes_fixture_and_finds_confighit() {
    let notes = txt("notes.txt", "the token confighit is in this body\n", now());
    let notes_path = notes.0.clone();
    let text = format!("name_root={ROOT}\ncontent_root={ROOT}\n");
    let cfg = parse_engine_config(&text).unwrap();
    let engine = from_roots(&cfg.name_root, &cfg.content_roots, &[notes]);
    let hits = engine.query("confighit", now());
    assert!(
        hits.iter().any(|h| h.record.path == notes_path),
        "expected content hit for {notes_path:?}, got {:?}",
        hits.iter().map(|h| &h.record.path).collect::<Vec<_>>()
    );
    assert!(
        hits.iter().any(|h| h.record.path == notes_path && h.content_match),
        "confighit should match file body via content_root, got {hits:?}"
    );
}

// ---- Korean natural-language words over a tree ----

fn window_secs(q: &Query, after: bool) -> u64 {
    let t = if after { q.modified_after } else { q.modified_before };
    now() - t.unwrap()
}

#[test]
fn compile_nl_keeps_last_week_tax_pdf() {
    let q = compile_nl("지난주 세금 pdf", now());
    assert_eq!(q.extensions, vec!["pdf".to_string()]);
    assert_eq!(q.must.len(), 1);
    match &q.must[0] {
        flashseek::query::Atom::Term(p) => assert_eq!(p.raw, "세금"),
        _ => panic!("expected term"),
    }
    assert_eq!(window_secs(&q, true), 7 * 24 * 3600);
    assert!(q.modified_before.is_none());
}

#[test]
fn compile_nl_korean_dates_and_type_words() {
    let today = compile_nl("오늘 메모", now());
    assert_eq!(window_secs(&today, true), 24 * 3600);
    assert!(today.modified_before.is_none());

    let yest = compile_nl("어제 메모", now());
    assert_eq!(window_secs(&yest, true), 48 * 3600);
    assert_eq!(window_secs(&yest, false), 24 * 3600);

    let month = compile_nl("이번달 분기실적 스프레드시트", now());
    assert_eq!(window_secs(&month, true), 30 * 24 * 3600);
    assert_eq!(month.extensions, vec!["xlsx".to_string()]);
    assert_eq!(month.must.len(), 1);
    match &month.must[0] {
        flashseek::query::Atom::Term(p) => assert_eq!(p.raw, "분기실적"),
        _ => panic!("expected term"),
    }

    let spaced = compile_nl("이번 달 분기실적", now());
    assert_eq!(window_secs(&spaced, true), 30 * 24 * 3600);
    assert_eq!(spaced.must.len(), 1);

    let year = compile_nl("올해 분기실적", now());
    assert_eq!(window_secs(&year, true), 365 * 24 * 3600);

    let docs = compile_nl("회의 문서", now());
    assert_eq!(docs.extensions, vec!["docx".to_string(), "pdf".to_string()]);

    let slides = compile_nl("발표 슬라이드", now());
    assert_eq!(slides.extensions, vec!["pptx".to_string()]);
}

#[test]
fn this_month_spreadsheet_word_filters_ext_and_date() {
    let files = vec![
        xlsx_plain("in-window.xlsx", "분기실적", days_ago(5)),
        xlsx_plain("too-old.xlsx", "분기실적", days_ago(60)),
        txt("wrong-ext.txt", "분기실적", days_ago(5)),
        pdf("wrong-ext.pdf", "분기실적", days_ago(5)),
        xlsx_plain("other-token.xlsx", " unrelated ", days_ago(5)),
    ];
    let engine = whole_tree(&files);

    for input in ["이번달 분기실적 스프레드시트", "이번 달 분기실적 스프레드시트"] {
        let q = compile_nl(input, now());
        assert_eq!(q.extensions, vec!["xlsx".to_string()], "{input}");
        assert_eq!(window_secs(&q, true), 30 * 24 * 3600, "{input}");

        let hits = engine.query(input, now());
        let got = names(&hits);
        assert!(got.contains(&"in-window.xlsx".into()), "{input} missed in-window xlsx, got {got:?}");
        assert!(!got.contains(&"too-old.xlsx".into()), "{input} leaked old xlsx, got {got:?}");
        assert!(
            !got.contains(&"wrong-ext.txt".into()) && !got.contains(&"wrong-ext.pdf".into()),
            "{input} leaked wrong ext, got {got:?}"
        );
        assert!(!got.contains(&"other-token.xlsx".into()), "{input} leaked other token, got {got:?}");
        let hit = hits.iter().find(|h| h.record.name == "in-window.xlsx").unwrap();
        assert!(!hit.record.name.contains("분기실적"), "name must not contain the token");
    }
}

#[test]
fn today_yesterday_year_and_document_word() {
    let files = vec![
        txt("today-note.txt", "메모", hours_ago(6)),
        txt("yesterday-note.txt", "메모", hours_ago(36)),
        txt("old-note.txt", "메모", days_ago(10)),
        docx("minutes.docx", "회의록", days_ago(3)),
        pdf("minutes.pdf", "회의록", days_ago(3)),
        txt("minutes.txt", "회의록", days_ago(3)),
        pptx_plain("deck.pptx", "발표자료", days_ago(20)),
        xlsx_plain("year-sheet.xlsx", "연간", days_ago(200)),
        xlsx_plain("ancient.xlsx", "연간", days_ago(400)),
    ];
    let engine = whole_tree(&files);

    let today = names(&engine.query("오늘 메모", now()));
    assert!(today.contains(&"today-note.txt".into()), "{today:?}");
    assert!(!today.contains(&"yesterday-note.txt".into()), "{today:?}");

    let yest = names(&engine.query("어제 메모", now()));
    assert!(yest.contains(&"yesterday-note.txt".into()), "{yest:?}");
    assert!(!yest.contains(&"today-note.txt".into()), "{yest:?}");
    assert!(!yest.contains(&"old-note.txt".into()), "{yest:?}");

    let docs = names(&engine.query("회의록 문서", now()));
    assert!(docs.contains(&"minutes.docx".into()), "{docs:?}");
    assert!(docs.contains(&"minutes.pdf".into()), "{docs:?}");
    assert!(!docs.contains(&"minutes.txt".into()), "{docs:?}");

    let slides = names(&engine.query("발표자료 슬라이드", now()));
    assert_eq!(slides, vec!["deck.pptx".to_string()]);

    let year = names(&engine.query("올해 연간 스프레드시트", now()));
    assert!(year.contains(&"year-sheet.xlsx".into()), "{year:?}");
    assert!(!year.contains(&"ancient.xlsx".into()), "{year:?}");
}
