pub mod aggregator;
pub mod common;
pub mod content_index;
pub mod indexer;
pub mod mcp_config;
pub mod multi_index;
pub mod query_parser;
pub mod scan;
pub mod scored_snippet;
pub mod search_manager;
pub mod search_manager_trait;
pub mod searcher;
pub mod smart_fetch;
pub mod snippet;
pub mod unified_searcher;
