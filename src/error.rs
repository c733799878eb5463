//! Why building a tree failed.

use vstd::prelude::*;

verus! {

/// Every failure aborts the whole build. A failure about a page names the page and the index.
#[derive(Clone, Debug, PartialEq, Eq)]
pub enum BuildError {
    /// The index name resolves to no catalog entry.
    IndexNotFound,
    /// The page-statistics lookup returned nothing for this page.
    PageNotFound { index_name: String, page_id: i64 },
    /// A row identifier could not be read.
    MalformedIdentifier,
    /// The batched row lookup for this page failed.
    Resolution { index_name: String, page_id: i64 },
    /// A page-statistics or page-items lookup for this page failed.
    Introspection { index_name: String, page_id: i64 },
    /// The page contradicts the shape of the tree: it was met before, its level does not fit
    /// its place or its kind, or it has fewer items than its sentinels.
    InconsistentPage { index_name: String, page_id: i64 },
}

} // verus!
