//! Sitemap-backed link resolver.
//!
//! The library keeps a snapshot of a website's sitemap — an ordered list of
//! absolute URLs — and answers two kinds of question about it: whether a
//! user-supplied path slug names a page that exists under a given namespace
//! prefix, and which sitemap entries could complete a partial slug. It also
//! parses the sitemap XML document itself into that list of URLs.
//!
//! URLs and slugs are handled as their raw bytes (`Vec<u8>` / `&[u8]`), so
//! the contracts speak of `Seq<u8>` throughout; callers that work with
//! `String`s convert at the boundary.

use vstd::prelude::*;

pub mod resolver;
pub mod scan;
pub mod sitemap;

verus! {

/// The byte sequence of each sitemap entry, in order.
pub open spec fn entry_views(s: Seq<Vec<u8>>) -> Seq<Seq<u8>> {
    s.map_values(|e: Vec<u8>| e@)
}

/// Shared state of the running service: the cached sitemap snapshot, one
/// entry per URL, in the order the sitemap document listed them.
pub struct Data {
    pub sitemap: Vec<Vec<u8>>,
}

/// Error raised when the sitemap document cannot be retrieved or parsed;
/// carries a human-readable description of the failure.
#[derive(Debug)]
pub struct XmlFetchError {
    pub msg: String,
}

impl XmlFetchError {
    /// Wraps a description of the underlying failure.
    pub fn new(description: &str) -> (r: XmlFetchError)
        ensures
            r.msg@ == description@,
    {
        XmlFetchError { msg: String::from_str(description) }
    }

    /// The human-readable description this error carries.
    pub fn message(&self) -> (r: &str)
        ensures
            r@ == self.msg@,
    {
        self.msg.as_str()
    }
}

} // verus!
