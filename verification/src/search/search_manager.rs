//! Index records kept by the search manager, and the key an index is
//! stored under.
use vstd::prelude::*;

use crate::config::Config;
use crate::text::opt_view;

verus! {

/// The name of the index used when none is configured.
pub open spec fn default_index_name() -> Seq<char> {
    "default_index"@
}

/// What is recorded of an index.
#[derive(Debug, Clone)]
pub struct IndexMetadata {
    pub version: String,
    pub index_name: String,
    pub created_at: String,
    pub last_updated: String,
    pub bookmark_count: usize,
    pub indexed_count: usize,
    pub index_size_bytes: u64,
}

/// Statistics of an index.
#[derive(Debug, Clone, Copy, PartialEq, Eq, Structural)]
pub struct IndexStats {
    pub total_documents: usize,
    pub index_size_bytes: u64,
}

/// The key an index is stored under: the configured index name, or
/// `default_index`.
pub fn get_index_key(config: &Config) -> (r: String)
    ensures
        r@ == match opt_view(config.index_name) {
            Some(n) => n,
            None => default_index_name(),
        },
{
    match &config.index_name {
        Some(n) => n.clone(),
        None => {
            let r = String::from_str("default_index");
            proof {
                reveal_strlit("default_index");
            }
            r
        },
    }
}

} // verus!
