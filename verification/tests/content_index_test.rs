use mcp_bookmark::bookmark::FlatBookmark;
use mcp_bookmark::search::content_index::{domain_priority, sort_by_domain_priority, BackgroundProgress, PageOutcome};

fn bookmark(id: &str, url: &str) -> FlatBookmark {
    FlatBookmark {
        id: id.to_string(),
        name: id.to_string(),
        url: url.to_string(),
        date_added: None,
        date_modified: None,
        folder_path: vec![],
    }
}

#[test]
fn domain_ranks() {
    assert_eq!(domain_priority("docs.rs"), 0);
    assert_eq!(domain_priority("doc.rust-lang.org"), 0);
    assert_eq!(domain_priority("reactjs.org"), 1);
    assert_eq!(domain_priority("developer.mozilla.org"), 2);
    assert_eq!(domain_priority("docs.github.com"), 3);
    assert_eq!(domain_priority("docs.aws.amazon.com"), 4);
    assert_eq!(domain_priority("dev.to"), 10);
    assert_eq!(domain_priority("stackoverflow.com"), 11);
    assert_eq!(domain_priority("example.com"), 100);
    assert_eq!(domain_priority(""), 100);
}

#[test]
fn documentation_pages_come_first() {
    let bookmarks = vec![
        bookmark("blog", "https://medium.com/post"),
        bookmark("other", "https://example.com/"),
        bookmark("rust", "https://docs.rs/serde"),
        bookmark("invalid", "not a url"),
        bookmark("so", "https://stackoverflow.com/q/1"),
        bookmark("mdn", "https://developer.mozilla.org/en-US/"),
        bookmark("std", "https://doc.rust-lang.org/std/"),
    ];
    let sorted = sort_by_domain_priority(bookmarks);
    let ids: Vec<&str> = sorted.iter().map(|b| b.id.as_str()).collect();
    assert_eq!(ids, vec!["rust", "std", "mdn", "blog", "so", "other", "invalid"]);
}

#[test]
fn progress_counts_pages_and_errors() {
    let mut p = BackgroundProgress::new(3);
    assert!(!p.record(PageOutcome::Indexed));
    assert!(!p.record(PageOutcome::TimedOut));
    assert!(p.record(PageOutcome::FetchFailed));
    assert_eq!((p.completed, p.errors, p.total), (3, 2, 3));
}
