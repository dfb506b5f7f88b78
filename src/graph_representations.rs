//! Ways to represent a graph with data on nodes (`T`) and edges (`E`).
//!
//! A fourth way, nodes held in `Rc<RefCell<..>>` with `Weak` edges between
//! them, has no counterpart here: vstd gives `RefCell` no specification, so
//! such nodes cannot be read or changed in verified code.

use std::collections::HashMap;
use std::hash::Hash;
use vstd::prelude::*;

verus! {

/// The edges alone, each with its data and its two ends; simple, and slow
/// to traverse.
pub struct EdgesListGraph<E, ID> {
    pub edges: Vec<(E, ID, ID)>,
}

/// Nodes by id, and the edge list beside them.
pub struct MapGraph<T, E, ID: Hash + Eq> {
    pub nodes: HashMap<ID, T>,
    pub edges: Vec<(E, ID, ID)>,
}

/// Nodes by id with the ids of their edges, and edges by id with the ids of
/// their ends: quick to search both ways.
pub struct MapPointerGraph<T, E, ID: Hash + Eq> {
    pub nodes: HashMap<ID, (T, Vec<ID>)>,
    pub edges: HashMap<ID, (E, ID, ID)>,
}

} // verus!
