//! The parameter records of the MCP tools and the defaults they apply.
use vstd::prelude::*;

verus! {

/// Parameters of the `search` tool.
pub struct SearchParams {
    /// Full-text search query to match against document content
    pub query: String,
    /// Maximum number of results to return (default: 20)
    pub limit: Option<usize>,
    /// Restrict results to documents whose path contains this substring
    pub path_filter: Option<String>,
    /// Number of tokens to include in search snippets (default: 32)
    pub snippet_length: Option<i64>,
}

impl SearchParams {
    /// The number of results asked for: 20 unless given.
    pub fn effective_limit(&self) -> (n: usize)
        ensures
            n == match self.limit {
                Some(l) => l,
                None => 20,
            },
    {
        match self.limit {
            Some(l) => l,
            None => 20,
        }
    }
}

/// Parameters of the tools that take one document.
pub struct DocIdParams {
    /// Unique document identifier (typically the file path relative to the project root)
    pub doc_id: String,
}

/// Parameters of the `approve_edits` tool.
pub struct ApproveEditsParams {
    /// Only approve stale references in these paths. Empty or omitted means approve all.
    pub paths: Option<Vec<String>>,
}

impl ApproveEditsParams {
    /// The paths to approve: none (that is, all) when omitted.
    pub fn approval_paths(self) -> (paths: Vec<String>)
        ensures
            paths@ == match self.paths {
                Some(p) => p@,
                None => Seq::<String>::empty(),
            },
    {
        match self.paths {
            Some(p) => p,
            None => Vec::new(),
        }
    }
}

/// Parameters of the `get_reachable` tool.
pub struct ReachableParams {
    /// Starting document identifier (typically the file path relative to the project root)
    pub doc_id: String,
    /// Maximum hop depth for BFS traversal (default: 2)
    pub max_depth: Option<i64>,
}

impl ReachableParams {
    /// The hop limit asked for: 2 unless given.
    pub fn effective_max_depth(&self) -> (d: i64)
        ensures
            d == match self.max_depth {
                Some(m) => m,
                None => 2,
            },
    {
        match self.max_depth {
            Some(m) => m,
            None => 2,
        }
    }
}

} // verus!
