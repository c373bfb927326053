//! Search parameters with a date range, as the bookmark searcher takes them.
use vstd::prelude::*;

use crate::text::opt_view;

verus! {

/// A range of dates, as timestamps.
#[derive(Debug, Clone, Copy, PartialEq, Eq, Structural)]
pub struct DateRange {
    pub start: i64,
    pub end: i64,
}

/// What to search for, and where.
#[derive(Debug, Clone)]
pub struct SearchParams {
    /// The query text.
    pub query: Option<String>,
    /// Only bookmarks in this folder.
    pub folder_filter: Option<String>,
    /// Only bookmarks of this domain.
    pub domain_filter: Option<String>,
    /// Only bookmarks added within this range.
    pub date_range: Option<DateRange>,
    /// The most results returned.
    pub limit: usize,
}

impl SearchParams {
    /// A search for `query`, without filters, returning up to 20 results.
    pub fn new(query: String) -> (r: Self)
        ensures
            opt_view(r.query) == Some(query@),
            r.folder_filter is None,
            r.domain_filter is None,
            r.date_range is None,
            r.limit == 20,
    {
        SearchParams { query: Some(query), folder_filter: None, domain_filter: None, date_range: None, limit: 20 }
    }

    /// The same search restricted to `folder`.
    pub fn with_folder(self, folder: String) -> (r: Self)
        ensures
            r.query == self.query,
            opt_view(r.folder_filter) == Some(folder@),
            r.domain_filter == self.domain_filter,
            r.date_range == self.date_range,
            r.limit == self.limit,
    {
        let mut s = self;
        s.folder_filter = Some(folder);
        s
    }

    /// The same search restricted to `domain`.
    pub fn with_domain(self, domain: String) -> (r: Self)
        ensures
            r.query == self.query,
            r.folder_filter == self.folder_filter,
            opt_view(r.domain_filter) == Some(domain@),
            r.date_range == self.date_range,
            r.limit == self.limit,
    {
        let mut s = self;
        s.domain_filter = Some(domain);
        s
    }

    /// The same search returning up to `limit` results.
    pub fn with_limit(self, limit: usize) -> (r: Self)
        ensures
            r.query == self.query,
            r.folder_filter == self.folder_filter,
            r.domain_filter == self.domain_filter,
            r.date_range == self.date_range,
            r.limit == limit,
    {
        let mut s = self;
        s.limit = limit;
        s
    }
}

impl Default for SearchParams {
    fn default() -> (r: Self)
        ensures
            r.query is None,
            r.folder_filter is None,
            r.domain_filter is None,
            r.date_range is None,
            r.limit == 0,
    {
        SearchParams { query: None, folder_filter: None, domain_filter: None, date_range: None, limit: 0 }
    }
}

/// Statistics of an index.
#[derive(Debug, Clone, Copy, PartialEq, Eq, Structural)]
pub struct IndexStats {
    /// Documents in the index.
    pub num_documents: usize,
}

} // verus!
