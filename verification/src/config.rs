//! Run configuration: which roots to scan, how deep, and which endpoints to
//! probe.

use vstd::prelude::*;

verus! {

/// Configuration of one audit run. The embedding program fills it from its
/// command line: one or more root paths, a traversal depth per root, and
/// zero or more ledger endpoint URLs.
pub struct Scraper {
    /// Which directories to look in.
    pub paths: Vec<String>,
    /// How deep to go in each directory.
    pub depth: usize,
    /// Which RPC endpoints to use for balance/owner checking.
    pub rpc: Vec<String>,
}

impl Scraper {
    /// A configuration with the given roots, depth and endpoints.
    pub fn new(paths: Vec<String>, depth: usize, rpc: Vec<String>) -> (r: Scraper)
        ensures
            r.paths == paths,
            r.depth == depth,
            r.rpc == rpc,
    {
        Scraper { paths, depth, rpc }
    }
}

} // verus!
