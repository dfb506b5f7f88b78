//! A graph kept as two maps: node id to data and the ids of its edges, and
//! edge id to data and the ids of its ends.

use std::collections::HashMap;
use std::hash::Hash;
use vstd::prelude::*;
use vstd::std_specs::hash::{
    axiom_contains_deref_key, axiom_deref_key_removed, axiom_maps_deref_key_to_value,
    axiom_random_state_builds_valid_hashers, obeys_key_model,
};

verus! {

broadcast use axiom_contains_deref_key, axiom_deref_key_removed, axiom_maps_deref_key_to_value,
    axiom_random_state_builds_valid_hashers;

/// Nodes by id, with their data and the ids of their edges; edges by id,
/// with their data and the ids of their two ends.
#[derive(Debug)]
pub struct Graph<T, E, ID: Hash + Eq> {
    pub data: HashMap<ID, (T, Vec<ID>)>,
    pub edges: HashMap<ID, (E, ID, ID)>,
}

impl<T, E, ID: Copy + Hash + Eq> Graph<T, E, ID> {
    /// A graph without nodes or edges.
    pub fn new() -> (r: Self)
        ensures
            r.data@ == Map::<ID, (T, Vec<ID>)>::empty(),
            r.edges@ == Map::<ID, (E, ID, ID)>::empty(),
    {
        Graph { data: HashMap::new(), edges: HashMap::new() }
    }

    /// Adds (or replaces) node `id`, with no edges yet.
    pub fn add_node(&mut self, id: ID, datum: T)
        ensures
            final(self).edges@ == old(self).edges@,
            obeys_key_model::<ID>() ==> {
                &&& final(self).data@.dom() == old(self).data@.dom().insert(id)
                &&& final(self).data@[id].0 == datum
                &&& final(self).data@[id].1@ == Seq::<ID>::empty()
                &&& forall|k: ID| #[trigger] old(self).data@.contains_key(k) && k != id ==> final(self).data@[k] == old(self).data@[k]
            },
    {
        self.data.insert(id, (datum, Vec::new()));
    }

    /// Records edge `edge_id` from `from_id` to `to_id`, and lists it with
    /// both of its ends, which must already be nodes.
    pub fn add_edge(&mut self, edge_id: ID, from_id: ID, to_id: ID, datum: E)
        requires
            obeys_key_model::<ID>() ==> old(self).data@.contains_key(from_id) && old(self).data@.contains_key(to_id),
        ensures
            obeys_key_model::<ID>() ==> {
                &&& final(self).edges@ == old(self).edges@.insert(edge_id, (datum, from_id, to_id))
                &&& final(self).data@.dom() == old(self).data@.dom()
                &&& final(self).data@[from_id].0 == old(self).data@[from_id].0
                &&& final(self).data@[to_id].0 == old(self).data@[to_id].0
                &&& from_id != to_id ==> final(self).data@[from_id].1@ == old(self).data@[from_id].1@.push(edge_id)
                &&& from_id != to_id ==> final(self).data@[to_id].1@ == old(self).data@[to_id].1@.push(edge_id)
                &&& from_id == to_id ==> final(self).data@[from_id].1@ == old(self).data@[from_id].1@.push(edge_id).push(edge_id)
                &&& forall|k: ID| #[trigger] old(self).data@.contains_key(k) && k != from_id && k != to_id ==> final(self).data@[k] == old(self).data@[k]
            },
    {
        self.edges.insert(edge_id, (datum, from_id, to_id));
        let ghost d0 = self.data@;
        if let Some((d, mut es)) = self.data.remove(&from_id) {
            es.push(edge_id);
            self.data.insert(from_id, (d, es));
        }
        let ghost d1 = self.data@;
        if let Some((d, mut es)) = self.data.remove(&to_id) {
            es.push(edge_id);
            self.data.insert(to_id, (d, es));
        }
        proof {
            if obeys_key_model::<ID>() {
                assert(d1.dom() =~= d0.dom());
                assert(self.data@.dom() =~= d0.dom());
            }
        }
    }
}

} // verus!
