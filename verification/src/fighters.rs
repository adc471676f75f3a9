//! Three kinds of value for an arena: one that stands alone, one that knows its
//! neighbours, and one that tells the neighbours it points to from those that
//! point to it. Neighbours are known by handle, so a graph may hold cycles.

use vstd::prelude::*;

verus! {

/// A value that refers to no other.
pub struct IsolatedFighter<T> {
    pub ele: T,
}

impl<T> IsolatedFighter<T> {
    /// Wraps `ele`.
    pub fn new(ele: T) -> (fighter: Self)
        ensures
            fighter.ele == ele,
    {
        Self { ele }
    }
}

/// A vertex of an undirected graph.
pub struct ConnectedFighter<T> {
    pub ele: T,
    pub edges: Vec<usize>,
}

impl<T> ConnectedFighter<T> {
    /// A vertex without edges.
    pub fn new(ele: T) -> (fighter: Self)
        ensures
            fighter.ele == ele,
            fighter.edges@.len() == 0,
    {
        Self { ele, edges: Vec::new() }
    }
}

/// A vertex of a directed graph.
pub struct DirectedFighter<T> {
    pub ele: T,
    pub outgoing: Vec<usize>,
    pub incoming: Vec<usize>,
}

impl<T> DirectedFighter<T> {
    /// A vertex without edges.
    pub fn new(ele: T) -> (fighter: Self)
        ensures
            fighter.ele == ele,
            fighter.outgoing@.len() == 0,
            fighter.incoming@.len() == 0,
    {
        Self { ele, outgoing: Vec::new(), incoming: Vec::new() }
    }
}

} // verus!
