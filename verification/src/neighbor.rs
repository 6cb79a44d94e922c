//! The transient candidate record carried through heaps and searches: an
//! internal node index paired with its distance from a query point.

use vstd::prelude::*;

verus! {

/// A candidate node seen during a search: the node's internal index and its
/// distance from the reference point. Ordered by distance alone; once built,
/// a value is never mutated — replacement means removal plus insertion.
#[derive(Debug, Clone, Copy, PartialEq, Eq, Structural)]
pub struct Neighbor {
    pub _idx: usize,
    pub _distance: i64,
}

impl Neighbor {
    /// Builds the record from its two fields.
    pub fn new(idx: usize, distance: i64) -> (r: Neighbor)
        ensures
            r._idx == idx,
            r._distance == distance,
    {
        Neighbor { _idx: idx, _distance: distance }
    }

    /// The node index this candidate refers to.
    pub fn idx(&self) -> (r: usize)
        ensures
            r == self._idx,
    {
        self._idx
    }

    /// The distance this candidate was recorded with.
    pub fn distance(&self) -> (r: i64)
        ensures
            r == self._distance,
    {
        self._distance
    }
}

} // verus!
