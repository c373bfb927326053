//! The page structure of an indexed bookmark.
use vstd::prelude::*;

verus! {

/// The page structure of a bookmark's content (for PDFs).
#[derive(Debug, Clone)]
pub struct BookmarkMetadata {
    pub url: String,
    pub title: String,
    pub page_count: usize,
    pub total_chars: usize,
    pub content_type: String,
    pub has_pages: bool,
}

} // verus!
