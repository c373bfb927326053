//! What the MCP tools decide before and after they query the index: which
//! search to run, how snippets are cut, and the texts of their answers.
use vstd::prelude::*;

use crate::content::{has_prefix, starts_with};
use crate::search::common::{decimal, push_decimal, push_text};
use crate::text::same_text;
use crate::search::unified_searcher::SearchParams;
use crate::text::opt_view;

verus! {

/// Results returned by a search when the request sets no limit.
pub const DEFAULT_RESULT_LIMIT: usize = 20;

/// Contents longer than this, in bytes, come with a warning.
pub const LARGE_CONTENT_BYTES: usize = 100_000;

/// The search a full-text request runs.
#[derive(Debug, Clone)]
pub enum SearchPlan {
    /// A search with filters.
    Filtered(SearchParams),
    /// A plain search for the query, returning up to so many results.
    Plain(String, usize),
}

/// The search for a request with `query`, optional `folder` and `domain`
/// filters and an optional `limit`: filtered where a filter is given (with
/// the limit where one is given), plain otherwise (up to 20 results unless
/// a limit is given).
pub fn plan_search(query: &str, folder: Option<String>, domain: Option<String>, limit: Option<usize>) -> (r:
    SearchPlan)
    ensures
        (folder is Some || domain is Some) ==> (r matches SearchPlan::Filtered(p) && opt_view(p.query)
            == Some(query@) && opt_view(p.folder_filter) == opt_view(folder) && opt_view(p.domain_filter)
            == opt_view(domain) && p.limit == match limit {
            Some(l) => l,
            None => DEFAULT_RESULT_LIMIT,
        }),
        (folder is None && domain is None) ==> (r matches SearchPlan::Plain(q, l) && q@ == query@
            && l == match limit {
            Some(l) => l,
            None => DEFAULT_RESULT_LIMIT,
        }),
{
    if folder.is_some() || domain.is_some() {
        let mut params = SearchParams::new(query);
        if let Some(f) = folder {
            params = params.with_folder(f);
        }
        if let Some(d) = domain {
            params = params.with_domain(d);
        }
        if let Some(l) = limit {
            params = params.with_limit(l);
        }
        SearchPlan::Filtered(params)
    } else {
        let l = match limit {
            Some(l) => l,
            None => DEFAULT_RESULT_LIMIT,
        };
        SearchPlan::Plain(String::from_str(query), l)
    }
}

/// The note added to search results: a warning where indexing is not done
/// and nothing was found, empty otherwise.
pub open spec fn indexing_note_text(complete: bool, found_nothing: bool) -> Seq<char> {
    if !complete && found_nothing {
        "No results found. Content indexing in progress - results may be incomplete."@
    } else {
        ""@
    }
}

/// The note added to search results.
pub fn indexing_note(complete: bool, found_nothing: bool) -> (r: String)
    ensures
        r@ == indexing_note_text(complete, found_nothing),
{
    if !complete && found_nothing {
        String::from_str("No results found. Content indexing in progress - results may be incomplete.")
    } else {
        proof {
            reveal_strlit("");
        }
        String::new()
    }
}

/// The warning sent with a content of `len` bytes: one that names its size
/// where it is over 100,000 bytes, none otherwise.
pub open spec fn size_warning_text(len: nat) -> Option<Seq<char>> {
    if len > LARGE_CONTENT_BYTES {
        Some(
            "⚠️ Large content detected ("@ + decimal(len)
                + " chars). For better performance with large PDFs, consider using get_bookmark_content_range to retrieve specific pages instead of the entire document."@,
        )
    } else {
        None
    }
}

/// The warning sent with a content of `len` bytes.
pub fn size_warning(len: usize) -> (r: Option<String>)
    ensures
        opt_view(r) == size_warning_text(len as nat),
{
    if len > LARGE_CONTENT_BYTES {
        let mut s = String::new();
        push_text(&mut s, "⚠️ Large content detected (");
        push_decimal(&mut s, len);
        push_text(
            &mut s,
            " chars). For better performance with large PDFs, consider using get_bookmark_content_range to retrieve specific pages instead of the entire document.",
        );
        Some(s)
    } else {
        None
    }
}

/// How a page range is named in an answer: `page n` for a single page,
/// `pages a-b` otherwise.
pub open spec fn page_range_text(start: nat, end: nat) -> Seq<char> {
    if start == end {
        "page "@ + decimal(start)
    } else {
        "pages "@ + decimal(start) + "-"@ + decimal(end)
    }
}

/// How the pages `start..=end` are named in an answer.
pub fn page_range_description(start: usize, end: usize) -> (r: String)
    ensures
        r@ == page_range_text(start as nat, end as nat),
{
    let mut s = String::new();
    if start == end {
        push_text(&mut s, "page ");
        push_decimal(&mut s, start);
    } else {
        push_text(&mut s, "pages ");
        push_decimal(&mut s, start);
        push_text(&mut s, "-");
        push_decimal(&mut s, end);
    }
    s
}

/// What reading a resource gives: with bookmarks taken from a pre-built
/// index, neither the bookmark tree nor a folder can be read.
#[derive(Debug, Clone, Copy, PartialEq, Eq, Structural)]
pub enum ResourceLookup {
    /// The bookmark tree, not available.
    TreeUnavailable,
    /// A folder of bookmarks, not available.
    FolderUnavailable,
    /// No such resource.
    Unknown,
}

/// The resource named by `uri`.
pub open spec fn resource_lookup_of(uri: Seq<char>) -> ResourceLookup {
    if uri == "bookmark://tree"@ {
        ResourceLookup::TreeUnavailable
    } else if starts_with(uri, "bookmark://folder/"@) {
        ResourceLookup::FolderUnavailable
    } else {
        ResourceLookup::Unknown
    }
}

/// The resource named by `uri`.
pub fn lookup_resource(uri: &str) -> (r: ResourceLookup)
    ensures
        r == resource_lookup_of(uri@),
{
    proof {
        reveal_strlit("bookmark://tree");
    }
    if same_text(uri, "bookmark://tree") {
        ResourceLookup::TreeUnavailable
    } else if has_prefix(uri, "bookmark://folder/") {
        ResourceLookup::FolderUnavailable
    } else {
        ResourceLookup::Unknown
    }
}

} // verus!
