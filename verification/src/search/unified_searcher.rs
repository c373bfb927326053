//! Search parameters of the unified searcher, and index statistics.
use vstd::prelude::*;

use crate::text::opt_view;

verus! {

/// What to search for, and where.
#[derive(Debug, Clone)]
pub struct SearchParams {
    /// The query text.
    pub query: Option<String>,
    /// Only bookmarks in this folder.
    pub folder_filter: Option<String>,
    /// Only bookmarks of this domain.
    pub domain_filter: Option<String>,
    /// The most results returned.
    pub limit: usize,
}

/// The number of results returned unless another limit is set.
pub const DEFAULT_LIMIT: usize = 20;

impl SearchParams {
    /// A search for `query`, without filters, returning up to 20 results.
    pub fn new(query: &str) -> (r: Self)
        ensures
            opt_view(r.query) == Some(query@),
            r.folder_filter is None,
            r.domain_filter is None,
            r.limit == DEFAULT_LIMIT,
    {
        SearchParams {
            query: Some(String::from_str(query)),
            folder_filter: None,
            domain_filter: None,
            limit: DEFAULT_LIMIT,
        }
    }

    /// The same search restricted to `folder`.
    pub fn with_folder(self, folder: String) -> (r: Self)
        ensures
            r.query == self.query,
            opt_view(r.folder_filter) == Some(folder@),
            r.domain_filter == self.domain_filter,
            r.limit == self.limit,
    {
        let mut s = self;
        s.folder_filter = Some(folder);
        s
    }

    /// The same search restricted to `domain`.
    pub fn with_domain(self, domain: String) -> (r: Self)
        ensures
            r.query == self.query,
            r.folder_filter == self.folder_filter,
            opt_view(r.domain_filter) == Some(domain@),
            r.limit == self.limit,
    {
        let mut s = self;
        s.domain_filter = Some(domain);
        s
    }

    /// The same search returning up to `limit` results.
    pub fn with_limit(self, limit: usize) -> (r: Self)
        ensures
            r.query == self.query,
            r.folder_filter == self.folder_filter,
            r.domain_filter == self.domain_filter,
            r.limit == limit,
    {
        let mut s = self;
        s.limit = limit;
        s
    }
}

impl Default for SearchParams {
    fn default() -> (r: Self)
        ensures
            r.query is None,
            r.folder_filter is None,
            r.domain_filter is None,
            r.limit == DEFAULT_LIMIT,
    {
        SearchParams { query: None, folder_filter: None, domain_filter: None, limit: DEFAULT_LIMIT }
    }
}

/// Statistics of an index.
#[derive(Debug, Clone, Copy, PartialEq, Eq, Structural)]
pub struct IndexStats {
    /// Documents in the index.
    pub total_documents: usize,
    /// Size of the index on disk, in bytes.
    pub index_size_bytes: u64,
}

} // verus!
