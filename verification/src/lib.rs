//! An approximate-nearest-neighbor search library built around a
//! hierarchical navigable small world (HNSW) graph index.
//!
//! The index stores vectors of integer components, measures closeness with a
//! configurable metric, and answers k-nearest-neighbor queries by greedy
//! descent through the graph's layers followed by a beam search at the
//! bottom layer.

use vstd::prelude::*;

pub mod heap;
pub mod hnsw;
pub mod metrics;
pub mod neighbor;
pub mod pq_params;

verus! {

/// The errors the library reports: input validation failures and internal
/// invariant violations.
#[derive(Debug, Clone, Copy, PartialEq, Eq, Structural)]
pub enum AnnError {
    /// The metric kind is the unset variant, or one the integer model cannot compute.
    UnknownMetric,
    /// A vector's length differs from the configured dimension.
    DimensionMismatch,
    /// A vector component lies outside the supported range.
    ComponentOutOfRange,
    /// The index already holds its maximum number of items.
    CapacityExceeded,
    /// A node id beyond the constructed range.
    InvalidId,
    /// The id is already tombstoned.
    AlreadyDeleted,
    /// Internal invariant violation: the pruned neighbor selection came back
    /// empty.
    EmptySelection,
    /// Internal invariant violation: a neighbor list was found over its cap,
    /// or the heuristic returned more than the cap.
    OverCapacity,
    /// Internal invariant violation: a node was about to be wired to itself.
    SelfConnection,
}

} // verus!
