//! Verified core of a bookmark search service: query parsing, text
//! utilities, snippet extraction, bookmark trees and indexing plans.
use vstd::prelude::*;

pub mod batch_manager;
pub mod bookmark;
pub mod chrome_profile;
pub mod chunks;
pub mod cli;
pub mod config;
pub mod mcp_server;
pub mod native_host;
pub mod content;
pub mod dump;
pub mod paths;
pub mod pdf_processor;
pub mod search;
pub mod text;

verus! {

} // verus!
