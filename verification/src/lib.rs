//! grepdown: the verified core of a Markdown knowledge-base indexer.
//!
//! The database, the file walk and the command-line and MCP front ends live
//! around this crate; everything that decides what gets indexed, linked,
//! searched or reported lives here, with its contract.
use vstd::prelude::*;

pub mod text;
pub mod search;
pub mod markdown;
pub mod slug;
pub mod order;
pub mod paths;
pub mod frontmatter;
pub mod index;
pub mod lint;
pub mod graph;
pub mod cli;
pub mod mcp;
pub mod watch;
pub mod db;
pub mod mddb;

pub use search::escape_fts5_query;

verus! {

} // verus!
