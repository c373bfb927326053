use mcp_bookmark::config::Config;
use mcp_bookmark::search::multi_index::{loaded_index_names, multi_index_status, MultiIndexError};

fn names(ns: &[&str]) -> Vec<String> {
    ns.iter().map(|n| n.to_string()).collect()
}

#[test]
fn indexes_that_failed_are_left_out() {
    let r = loaded_index_names(&names(&["work", "personal", "research"]), &vec![true, false, true]);
    assert_eq!(r, Ok(names(&["work", "research"])));
}

#[test]
fn no_index_names_is_an_error() {
    let config = Config { index_name: None, max_bookmarks: 0, max_snippet_length: 600 };
    let ns = config.parse_index_names();
    assert_eq!(loaded_index_names(&ns, &vec![]), Err(MultiIndexError::NoIndexNames));
}

#[test]
fn no_index_loaded_reports_the_failures() {
    let r = loaded_index_names(&names(&["a", "b"]), &vec![false, false]);
    assert_eq!(r, Err(MultiIndexError::NoIndexLoaded(names(&["a", "b"]))));
}

#[test]
fn a_failed_name_is_left_out_wherever_it_occurs() {
    let r = loaded_index_names(&names(&["a", "b", "a"]), &vec![true, true, false]);
    assert_eq!(r, Ok(names(&["b"])));
}

#[test]
fn multi_index_status_lists_document_counts() {
    let s = multi_index_status(&names(&["work", "personal", "research"]), &vec![Some(120), None, Some(7)]);
    assert_eq!(s, "Multi-index mode: 3 indices loaded (work: 120 docs, research: 7 docs)");
    assert_eq!(multi_index_status(&names(&[]), &vec![]), "Multi-index mode: 0 indices loaded ()");
}
