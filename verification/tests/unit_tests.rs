use flashseek::catalog::Catalog;
use flashseek::cli::{apply_cli_filters, parse_args, HELP};
use flashseek::content::{make_snippet, ContentIndex};
use flashseek::engine::{apply_config_to_fields, EngineConfig};
use flashseek::extract::{
    decode_plain_bytes, extract_pdf, extract_rtf, is_extractable, skip_utf8_bom, strip_html,
};
use flashseek::nl::compile_nl;
use flashseek::preview::{parse_preview_clsid, should_use_handler};
use flashseek::query::{parse_query, Atom, SizeFilter};
use flashseek::rank::rank_hits;
use flashseek::types::{CatalogEvent, FileRecord, Hit};
use flashseek::walk::{should_index_content, MAX_CONTENT_BYTES};

fn now() -> u64 {
    1_800_000_000
}

// ---- query ----

#[test]
fn space_is_and_pipe_is_or() {
    let q = parse_query("foo bar|baz", now());
    assert_eq!(q.must.len(), 2);
    match &q.must[1] {
        Atom::Or(ps) => assert_eq!(ps.len(), 2),
        _ => panic!("expected OR"),
    }
}

#[test]
fn not_and_ext_and_size() {
    let q = parse_query("report !tmp ext:pdf size:>1mb", now());
    assert_eq!(q.extensions, vec!["pdf".to_string()]);
    assert!(matches!(q.size, Some(SizeFilter::Gt(_))));
    assert_eq!(q.must_not.len(), 1);
}

#[test]
fn quoted_phrase_is_one_term() {
    let q = parse_query("\"foo bar\" baz", now());
    assert_eq!(q.must.len(), 2);
    match &q.must[0] {
        Atom::Term(p) => assert_eq!(p.raw, "foo bar"),
        _ => panic!("expected quoted phrase as one term"),
    }
    match &q.must[1] {
        Atom::Term(p) => assert_eq!(p.raw, "baz"),
        _ => panic!("expected trailing term"),
    }
}

#[test]
fn name_file_folder_modifiers() {
    let n = parse_query("n:alpha", now());
    assert!(n.name_only);
    assert!(!n.files_only && !n.folders_only);
    match &n.must[0] {
        Atom::Term(p) => assert_eq!(p.raw, "alpha"),
        _ => panic!("expected term"),
    }

    let name = parse_query("name:Alpha", now());
    assert!(name.name_only);
    match &name.must[0] {
        Atom::Term(p) => assert_eq!(p.raw, "Alpha"),
        _ => panic!("expected term"),
    }

    let f = parse_query("file:", now());
    assert!(f.files_only);
    assert!(!f.folders_only);
    assert!(f.must.is_empty());

    let attached = parse_query("file:report", now());
    assert!(attached.files_only);
    match &attached.must[0] {
        Atom::Term(p) => assert_eq!(p.raw, "report"),
        _ => panic!("expected term"),
    }

    let d = parse_query("folder:", now());
    assert!(d.folders_only);
    assert!(!d.files_only);
}

// ---- content ----

#[test]
fn snippet_highlights_term() {
    let s = make_snippet("alpha 세금 omega", &["세금".to_string()], 10).unwrap();
    assert!(s.text.contains("세금"));
    assert!(!s.highlights.is_empty());
    let (a, b) = s.highlights[0];
    assert_eq!(&s.text[a..b], "세금");
}

#[test]
fn inverted_index_tracks_words_and_removes() {
    let mut idx = ContentIndex::new();
    let p = "C:\\docs\\a.txt".to_string();
    idx.index(p.clone(), "alpha 세금 omega".to_string());
    assert!(idx.paths_for_word("세금").contains(&p));
    assert!(idx.paths_for_word("alpha").contains(&p));
    idx.remove(&p);
    assert!(idx.paths_for_word("세금").is_empty());
}

// ---- extract ----

#[test]
fn rtf_keeps_visible_text() {
    let t = extract_rtf(r"{\rtf1\ansi hello \b 세금\b0 }");
    assert!(t.contains("hello"));
    assert!(t.contains("세금"));
    assert!(is_extractable("a.rtf"));
}

#[test]
fn html_strips_tags() {
    assert!(strip_html("<p>Hello <b>세금</b></p>").contains("세금"));
}

#[test]
fn csv_json_log_are_plain_text() {
    assert!(is_extractable("a.csv"));
    assert!(is_extractable("a.json"));
    assert!(is_extractable("a.log"));
    assert!(is_extractable("a.xml"));
    assert!(is_extractable("a.toml"));
    assert!(is_extractable("a.yaml"));
    assert!(is_extractable("main.rs"));
    assert!(is_extractable("app.ts"));
}

#[test]
fn utf16_le_bom_decodes() {
    let mut v = vec![0xFF, 0xFE];
    for c in "세금".encode_utf16() {
        v.extend_from_slice(&c.to_le_bytes());
    }
    assert_eq!(decode_plain_bytes(&v).unwrap(), "세금");
}

#[test]
fn skip_utf8_bom_drops_ef_bb_bf() {
    assert_eq!(skip_utf8_bom(&[0xEF, 0xBB, 0xBF, b'a']), b"a".to_vec());
    assert_eq!(skip_utf8_bom(b"abc"), b"abc".to_vec());
    assert_eq!(skip_utf8_bom(&[0xEF, 0xBB]), vec![0xEF, 0xBB]);
}

#[test]
fn pdf_finds_embedded_utf8() {
    let mut pdf = b"%PDF-1.1\n".to_vec();
    pdf.extend_from_slice("세금".as_bytes());
    pdf.extend_from_slice(b"\n%%EOF");
    assert!(extract_pdf(&pdf).contains("세금"));
}

// ---- nl ----

#[test]
fn last_week_tax_pdf() {
    let now = now();
    let q = compile_nl("지난주 세금 pdf", now);
    assert_eq!(q.extensions, vec!["pdf".to_string()]);
    assert!(q.modified_after.is_some());
    assert_eq!(q.must.len(), 1);
    match &q.must[0] {
        Atom::Term(p) => assert_eq!(p.raw, "세금"),
        _ => panic!("expected term"),
    }
    let window = now - q.modified_after.unwrap();
    assert_eq!(window, 7 * 24 * 3600);
}

#[test]
fn passthrough_ext_dm_size() {
    let q = compile_nl("invoice ext:docx size:>10kb dm:today", now());
    assert_eq!(q.extensions, vec!["docx".to_string()]);
    assert!(q.size.is_some());
    assert!(q.modified_after.is_some());
}

#[test]
fn korean_date_windows_and_type_words() {
    let now = now();

    let today = compile_nl("오늘", now);
    assert_eq!(now - today.modified_after.unwrap(), 24 * 3600);
    assert!(today.modified_before.is_none());

    let yest = compile_nl("어제", now);
    assert_eq!(now - yest.modified_after.unwrap(), 48 * 3600);
    assert_eq!(now - yest.modified_before.unwrap(), 24 * 3600);

    for input in ["이번달", "이번 달"] {
        let q = compile_nl(input, now);
        assert_eq!(now - q.modified_after.unwrap(), 30 * 24 * 3600, "{input}");
        assert!(q.must.is_empty(), "{input} must not keep 달 as a term");
    }

    let year = compile_nl("올해", now);
    assert_eq!(now - year.modified_after.unwrap(), 365 * 24 * 3600);

    let docs = compile_nl("문서", now);
    assert_eq!(docs.extensions, vec!["docx".to_string(), "pdf".to_string()]);
    assert!(docs.must.is_empty());

    let sheet = compile_nl("스프레드시트", now);
    assert_eq!(sheet.extensions, vec!["xlsx".to_string()]);

    let slides = compile_nl("슬라이드", now);
    assert_eq!(slides.extensions, vec!["pptx".to_string()]);
}

// ---- preview ----

#[test]
fn parses_canonical_clsid() {
    let raw = "{8895b1c6-b41f-4c1c-a562-0d564250836f}";
    assert_eq!(
        parse_preview_clsid(raw).unwrap(),
        "{8895B1C6-B41F-4C1C-A562-0D564250836F}"
    );
    assert!(parse_preview_clsid("not-a-clsid").is_none());
    assert!(parse_preview_clsid("{zz}").is_none());
}

#[test]
fn handler_preferred_for_pdf_without_snippet() {
    assert!(should_use_handler("C:\\\\a.pdf", false));
    assert!(!should_use_handler("C:\\\\a.pdf", true));
    assert!(!should_use_handler("C:\\\\a.txt", false));
}

// ---- walk ----

#[test]
fn skips_huge_blobs_keeps_normal_docs() {
    assert!(should_index_content(1024, true, true));
    assert!(!should_index_content(MAX_CONTENT_BYTES + 1, true, true));
    assert!(!should_index_content(1024, false, true));
    assert!(!should_index_content(1024, true, false));
}

// ---- catalog ----

fn named_rec(id: u64, name: &str) -> FileRecord {
    FileRecord {
        id,
        parent_id: None,
        name: name.to_string(),
        path: format!("C:\\x\\{name}"),
        size: 1,
        modified: 0,
        is_dir: false,
        attributes: 0,
    }
}

#[test]
fn apply_create_delete_rename() {
    let mut c = Catalog::new();
    c.apply(CatalogEvent::Create(named_rec(1, "a.txt")));
    assert_eq!(c.len(), 1);
    c.apply(CatalogEvent::Rename {
        id: 1,
        new_name: "b.txt".into(),
        new_path: "C:\\x\\b.txt".to_string(),
    });
    assert_eq!(c.get(1).unwrap().name, "b.txt");
    c.apply(CatalogEvent::Delete { id: 1 });
    assert!(c.is_empty());
}

// ---- rank ----

fn ranked_hit(name: &str, name_match: bool, path_match: bool, modified: u64) -> Hit {
    Hit {
        record: FileRecord {
            id: 1,
            parent_id: None,
            name: name.into(),
            path: format!("C:\\docs\\{name}"),
            size: 1,
            modified,
            is_dir: false,
            attributes: 0,
        },
        score: 0,
        name_match,
        path_match,
        content_match: false,
        snippet: None,
    }
}

#[test]
fn name_outranks_path_and_recent_wins_tie_break_on_name_when_equal() {
    let now = 1_000_000;
    let mut hits = vec![
        ranked_hit("pathy.txt", false, true, now),
        ranked_hit("namey.txt", true, false, now),
    ];
    rank_hits(&mut hits, now);
    assert_eq!(hits[0].record.name, "namey.txt");
    assert!(hits[0].score > hits[1].score);
}

// ---- window fields ----

#[test]
fn apply_config_joins_content_roots() {
    let cfg = EngineConfig {
        name_root: r"C:\".to_string(),
        content_roots: vec![
            r"C:\Users\a\Documents".to_string(),
            r"C:\Users\a\Downloads".to_string(),
        ],
    };
    let (name, content) = apply_config_to_fields(&cfg);
    assert_eq!(name, r"C:\");
    assert_eq!(content, r"C:\Users\a\Documents;C:\Users\a\Downloads");
}

#[test]
fn apply_config_empty_content_roots() {
    let cfg = EngineConfig {
        name_root: r"D:\data".to_string(),
        content_roots: vec![],
    };
    let (name, content) = apply_config_to_fields(&cfg);
    assert_eq!(name, r"D:\data");
    assert_eq!(content, "");
}

// ---- command line ----

fn args(xs: &[&str]) -> Vec<String> {
    xs.iter().map(|s| (*s).to_string()).collect()
}

fn cli_hit(name: &str, is_dir: bool) -> Hit {
    Hit {
        record: FileRecord {
            id: 1,
            parent_id: None,
            name: name.into(),
            path: name.to_string(),
            size: 0,
            modified: 0,
            is_dir,
            attributes: 0,
        },
        score: 0,
        name_match: true,
        path_match: false,
        content_match: false,
        snippet: None,
    }
}

fn sample_hits() -> Vec<Hit> {
    vec![
        cli_hit("dir-a", true),
        cli_hit("file-a.txt", false),
        cli_hit("file-b.txt", false),
        cli_hit("dir-b", true),
        cli_hit("file-c.txt", false),
    ]
}

#[test]
fn defaults_are_unlimited_and_unfiltered() {
    let cli = parse_args(&args(&["--query", "notes"])).unwrap();
    assert_eq!(cli.query, "notes");
    assert_eq!(cli.max_results, 0);
    assert!(!cli.files_only);
    assert!(!cli.folders_only);
    assert!(!cli.help);
    assert!(!cli.json);
    assert!(!cli.count);
    assert!(!cli.quiet);
}

#[test]
fn max_results_parses() {
    let cli = parse_args(&args(&["--max-results", "10"])).unwrap();
    assert_eq!(cli.max_results, 10);
}

#[test]
fn max_results_zero_is_unlimited() {
    let cli = parse_args(&args(&["--max-results", "0"])).unwrap();
    assert_eq!(cli.max_results, 0);
    let hits = apply_cli_filters(sample_hits(), &cli);
    assert_eq!(hits.len(), 5);
}

#[test]
fn max_results_missing_value_errors() {
    let err = parse_args(&args(&["--max-results"])).unwrap_err();
    assert!(err.contains("--max-results"));
}

#[test]
fn max_results_invalid_value_errors() {
    let err = parse_args(&args(&["--max-results", "nope"])).unwrap_err();
    assert!(err.contains("invalid --max-results"));
}

#[test]
fn files_only_flag() {
    let cli = parse_args(&args(&["--files-only"])).unwrap();
    assert!(cli.files_only);
    assert!(!cli.folders_only);
}

#[test]
fn folders_only_flag() {
    let cli = parse_args(&args(&["--folders-only"])).unwrap();
    assert!(cli.folders_only);
    assert!(!cli.files_only);
}

#[test]
fn files_and_folders_only_conflict() {
    let err = parse_args(&args(&["--files-only", "--folders-only"])).unwrap_err();
    assert!(err.contains("--files-only"));
    assert!(err.contains("--folders-only"));
}

#[test]
fn unknown_arg_errors() {
    let err = parse_args(&args(&["--nope"])).unwrap_err();
    assert_eq!(err, "unknown arg: --nope");
}

#[test]
fn help_flag_short_and_long() {
    let long = parse_args(&args(&["--help"])).unwrap();
    assert!(long.help);
    let short = parse_args(&args(&["-h"])).unwrap();
    assert!(short.help);
}

#[test]
fn help_text_lists_new_flags() {
    assert!(HELP.contains("--max-results"));
    assert!(HELP.contains("--files-only"));
    assert!(HELP.contains("--folders-only"));
    assert!(HELP.contains("--config"));
    assert!(HELP.contains("--count"));
    assert!(HELP.contains("--quiet"));
}

#[test]
fn count_flag() {
    let cli = parse_args(&args(&["--count"])).unwrap();
    assert!(cli.count);
    assert!(!cli.quiet);
    assert!(!cli.json);
}

#[test]
fn quiet_flag() {
    let cli = parse_args(&args(&["--quiet"])).unwrap();
    assert!(cli.quiet);
    assert!(!cli.count);
}

#[test]
fn count_and_quiet_together() {
    let cli = parse_args(&args(&["--count", "--quiet"])).unwrap();
    assert!(cli.count);
    assert!(cli.quiet);
}

#[test]
fn count_and_json_both_parse_count_wins_at_output() {
    let cli = parse_args(&args(&["--json", "--count"])).unwrap();
    assert!(cli.json);
    assert!(cli.count);
}

#[test]
fn config_flag_parses() {
    let cli = parse_args(&args(&["--config", "C:\\flashseek.conf", "--query", "pdf"])).unwrap();
    assert_eq!(cli.config_path.unwrap(), "C:\\flashseek.conf");
    assert_eq!(cli.query, "pdf");
}

#[test]
fn existing_flags_still_parse() {
    let cli = parse_args(&args(&[
        "--name-root",
        "C:\\data",
        "--content-root",
        "C:\\docs",
        "--query",
        "세금 pdf",
        "--json",
        "--out",
        "hits.json",
        "--now-epoch-secs",
        "100",
        "--max-results",
        "3",
        "--files-only",
    ]))
    .unwrap();
    assert_eq!(cli.name_root.unwrap(), "C:\\data");
    assert_eq!(cli.content_root.unwrap(), "C:\\docs");
    assert_eq!(cli.query, "세금 pdf");
    assert!(cli.json);
    assert_eq!(cli.out_path.unwrap(), "hits.json");
    assert_eq!(cli.now, Some(100));
    assert_eq!(cli.max_results, 3);
    assert!(cli.files_only);
}

#[test]
fn files_only_keeps_files() {
    let cli = parse_args(&args(&["--files-only"])).unwrap();
    let hits = apply_cli_filters(sample_hits(), &cli);
    let names: Vec<_> = hits.iter().map(|h| h.record.name.as_str()).collect();
    assert_eq!(names, ["file-a.txt", "file-b.txt", "file-c.txt"]);
    assert!(hits.iter().all(|h| !h.record.is_dir));
}

#[test]
fn folders_only_keeps_dirs() {
    let cli = parse_args(&args(&["--folders-only"])).unwrap();
    let hits = apply_cli_filters(sample_hits(), &cli);
    let names: Vec<_> = hits.iter().map(|h| h.record.name.as_str()).collect();
    assert_eq!(names, ["dir-a", "dir-b"]);
    assert!(hits.iter().all(|h| h.record.is_dir));
}

#[test]
fn max_results_truncates_after_filter() {
    let cli = parse_args(&args(&["--files-only", "--max-results", "2"])).unwrap();
    let hits = apply_cli_filters(sample_hits(), &cli);
    let names: Vec<_> = hits.iter().map(|h| h.record.name.as_str()).collect();
    assert_eq!(names, ["file-a.txt", "file-b.txt"]);
}
