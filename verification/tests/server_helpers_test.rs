use mcp_bookmark::cli::{parse_args, CliAction};
use mcp_bookmark::content::{apply_meta, content_from_parts, extract_content, extract_metadata, join_text_nodes, metadata_from_parts, resolve_url, PageMetadata};
use mcp_bookmark::mcp_server::{indexing_note, lookup_resource, page_range_description, plan_search, size_warning, ResourceLookup, SearchPlan};
use mcp_bookmark::pdf_processor::{cache_file_name, cache_fresh, check_pdf_response, clean_text, PdfDownloadError, MAX_PDF_BYTES};

fn args(v: &[&str]) -> Vec<String> {
    v.iter().map(|s| s.to_string()).collect()
}

#[test]
fn test_clean_text() {
    let dirty_text = "  Hello   \n\n  World  \r\n  Test  ";
    let clean = clean_text(dirty_text);
    assert_eq!(clean, "Hello World Test");
}

#[test]
fn clean_text_drops_controls() {
    assert_eq!(clean_text("a\u{1}b\tc\u{85}d"), "ab c d");
    assert_eq!(clean_text(""), "");
    assert_eq!(clean_text(" \n "), "");
}

#[test]
fn cli_actions() {
    assert_eq!(parse_args(&args(&["prog"])), CliAction::Run { max_bookmarks: 0 });
    assert_eq!(parse_args(&args(&["prog", "5", "x", "7"])), CliAction::Run { max_bookmarks: 7 });
    assert_eq!(parse_args(&args(&["prog", "--help", "--list-indexes"])), CliAction::Help);
    assert_eq!(parse_args(&args(&["prog", "-h"])), CliAction::Help);
    assert_eq!(parse_args(&args(&["prog", "--list-indexes"])), CliAction::ListIndexes);
    assert_eq!(parse_args(&args(&["prog", "--clear-index", "work"])), CliAction::ClearIndex("work".to_string()));
    assert_eq!(parse_args(&args(&["prog", "--clear-index"])), CliAction::ClearIndexMissingName);
    assert_eq!(parse_args(&args(&["prog", "--clear-all-indexes"])), CliAction::ClearAllIndexes);
}

#[test]
fn search_plans() {
    match plan_search("rust", None, None, None) {
        SearchPlan::Plain(q, l) => {
            assert_eq!(q, "rust");
            assert_eq!(l, 20);
        }
        _ => panic!("expected a plain search"),
    }
    match plan_search("rust", Some("Dev".to_string()), None, Some(5)) {
        SearchPlan::Filtered(p) => {
            assert_eq!(p.query, Some("rust".to_string()));
            assert_eq!(p.folder_filter, Some("Dev".to_string()));
            assert_eq!(p.domain_filter, None);
            assert_eq!(p.limit, 5);
        }
        _ => panic!("expected a filtered search"),
    }
}

#[test]
fn answer_texts() {
    assert_eq!(page_range_description(3, 3), "page 3");
    assert_eq!(page_range_description(2, 5), "pages 2-5");
    assert_eq!(indexing_note(true, true), "");
    assert!(indexing_note(false, true).starts_with("No results found."));
    assert_eq!(size_warning(100_000), None);
    assert!(size_warning(100_001).unwrap().contains("(100001 chars)"));
}

#[test]
fn page_content_helpers() {
    assert_eq!(join_text_nodes(&args(&["  Hello ", "", " \n", "World"])), "Hello World");
    assert_eq!(resolve_url("https://example.com/a/b", "https://x.org/i.png"), "https://x.org/i.png");
    assert_eq!(resolve_url("https://example.com/a/b", "/icon.png"), "https://example.com/icon.png");
    assert_eq!(resolve_url("not a url", "icon.png"), "icon.png");
    let mut m = PageMetadata::empty();
    apply_meta(&mut m, "https://example.com/", Some("og:title"), None, Some("Title"));
    apply_meta(&mut m, "https://example.com/", Some("og:image"), None, Some("img.png"));
    apply_meta(&mut m, "https://example.com/", None, Some("description"), Some("About"));
    apply_meta(&mut m, "https://example.com/", Some("og:type"), None, None);
    assert_eq!(m.og_title, Some("Title".to_string()));
    assert_eq!(m.og_image, Some("https://example.com/img.png".to_string()));
    assert_eq!(m.description, Some("About".to_string()));
    assert_eq!(m.og_type, None);
}

#[test]
fn pdf_cache_file_is_named_by_the_url_digest() {
    assert_eq!(
        cache_file_name("https://example.com/a.pdf"),
        "e5beb0efa3198c4dc09c7d5ccc812c7ae95cd91e1d78b97abc6e00f141f597f0.txt"
    );
    assert_eq!(cache_file_name(""), "e3b0c44298fc1c149afbf4c8996fb92427ae41e4649b934ca495991b7852b855.txt");
}

#[test]
fn pdf_downloads_are_checked() {
    assert_eq!(check_pdf_response(false, Some(10)), Err(PdfDownloadError::HttpStatus));
    assert_eq!(check_pdf_response(true, Some(MAX_PDF_BYTES)), Ok(()));
    assert_eq!(check_pdf_response(true, Some(MAX_PDF_BYTES + 1)), Err(PdfDownloadError::TooLarge(MAX_PDF_BYTES + 1)));
    assert_eq!(check_pdf_response(true, None), Ok(()));
    assert!(cache_fresh(0));
    assert!(cache_fresh(7 * 24 * 3600 * 1_000_000_000 - 1));
    assert!(!cache_fresh(7 * 24 * 3600 * 1_000_000_000));
}

#[test]
fn resources_cannot_be_read_from_a_prebuilt_index() {
    assert_eq!(lookup_resource("bookmark://tree"), ResourceLookup::TreeUnavailable);
    assert_eq!(lookup_resource("bookmark://folder/Work"), ResourceLookup::FolderUnavailable);
    assert_eq!(lookup_resource("bookmark://folder/"), ResourceLookup::FolderUnavailable);
    assert_eq!(lookup_resource("bookmark://treeX"), ResourceLookup::Unknown);
    assert_eq!(lookup_resource("file:///etc"), ResourceLookup::Unknown);
}

const PAGE: &str = r#"<html><head>
<title>  Rust Guide  </title>
<meta property="og:title" content="OG Rust">
<meta property="og:image" content="/img.png">
<meta name="description" content="All about Rust">
<meta property="og:type">
<link rel="shortcut icon" href="/favicon.ico">
</head><body><p> Hello </p><main><p>Main  part</p> <p>  </p><p>end</p></main></body></html>"#;

#[test]
fn metadata_is_read_from_html() {
    let m = extract_metadata(PAGE, "https://example.com/docs/page");
    assert_eq!(m.title.as_deref(), Some("Rust Guide"));
    assert_eq!(m.og_title.as_deref(), Some("OG Rust"));
    assert_eq!(m.og_image.as_deref(), Some("https://example.com/img.png"));
    assert_eq!(m.description.as_deref(), Some("All about Rust"));
    assert_eq!(m.og_type, None);
    assert_eq!(m.og_description, None);
    assert_eq!(m.favicon_url.as_deref(), Some("https://example.com/favicon.ico"));
    let bare = extract_metadata("<p>no head</p>", "https://example.com/");
    assert_eq!(bare.title, None);
    assert_eq!(bare.favicon_url, None);
}

#[test]
fn content_is_read_from_html() {
    let c = extract_content(PAGE);
    assert_eq!(c.html_title.as_deref(), Some("Rust Guide"));
    assert_eq!(c.text_content.as_deref(), Some("Hello Main  part end"));
    assert_eq!(c.main_content.as_deref(), Some("Main  part end"));
    let none = extract_content("<p>only</p>");
    assert_eq!(none.main_content, None);
}

#[test]
fn metadata_and_content_from_parts() {
    let metas = vec![
        (Some("og:description".to_string()), None, Some("d".to_string())),
        (None, Some("description".to_string()), None),
    ];
    let m = metadata_from_parts(Some(" t ".to_string()), &metas, Some("icon.png".to_string()), "https://a.org/x/");
    assert_eq!(m.title.as_deref(), Some("t"));
    assert_eq!(m.og_description.as_deref(), Some("d"));
    assert_eq!(m.description, None);
    assert_eq!(m.favicon_url.as_deref(), Some("https://a.org/x/icon.png"));
    let c = content_from_parts(None, Some(vec![" a ".to_string(), "".to_string(), "b".to_string()]), None);
    assert_eq!(c.text_content.as_deref(), Some("a b"));
    assert_eq!(c.html_title, None);
}
