//! Search settings sized for answers sent over MCP.
use vstd::prelude::*;

use crate::search::scored_snippet::ScoredSnippetGenerator;

verus! {

/// Bytes of context either side of a match in snippets sent over MCP.
pub const MCP_CONTEXT_WINDOW: usize = 100;

/// Search settings for answers sent over MCP.
#[derive(Debug, Clone, Copy, PartialEq, Eq, Structural)]
pub struct McpSearchConfig {
    /// The most snippets per result.
    pub max_snippets_per_result: usize,
    /// The longest snippet.
    pub max_snippet_length: usize,
    /// The most results.
    pub max_results: usize,
    /// Whether the older result fields are included.
    pub include_legacy_fields: bool,
}

impl Default for McpSearchConfig {
    fn default() -> (r: Self)
        ensures
            r.max_snippets_per_result == 2,
            r.max_snippet_length == 300,
            r.max_results == 10,
            !r.include_legacy_fields,
    {
        McpSearchConfig {
            max_snippets_per_result: 2,
            max_snippet_length: 300,
            max_results: 10,
            include_legacy_fields: false,
        }
    }
}

impl McpSearchConfig {
    /// A snippet generator with these limits and 100 bytes of context.
    pub fn create_snippet_generator(&self) -> (r: ScoredSnippetGenerator)
        ensures
            r.max_len() == self.max_snippet_length,
            r.max_count() == self.max_snippets_per_result,
            r.window() == MCP_CONTEXT_WINDOW,
    {
        ScoredSnippetGenerator::with_config(self.max_snippet_length, self.max_snippets_per_result, MCP_CONTEXT_WINDOW)
    }
}

} // verus!
