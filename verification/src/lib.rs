//! A media-browser core: a slash-delimited path is resolved, segment by
//! segment, to a node of a hierarchical tree of folders and leaves, yielding
//! the node, the chain of ancestor labels ("breadcrumbs") and the node's
//! children. The store behind the tree is abstract; an in-memory
//! adjacency-list store is the reference backend.

use vstd::prelude::*;

pub mod browse;
pub mod node;
pub mod resolve;
pub mod store;

verus! {

/// The identifier that stands for "no parent": top-level nodes hang under it,
/// and no real node may carry it as its own id.
pub const ROOT_ID: u64 = 0;

} // verus!
