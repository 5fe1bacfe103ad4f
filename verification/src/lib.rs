//! A memoizing document store and a breadth-first closure traversal over the
//! link graph of remote, hierarchically nested documents.
//!
//! The store caches every fetched document by identifier so that no
//! identifier is ever requested from the remote client twice; the traversal
//! discovers the full set of documents reachable from a seed set, fetching
//! each exactly once and stopping at the first failure.

pub mod client;
pub mod doc;
pub mod fifo;
pub mod graph;
pub mod store;
