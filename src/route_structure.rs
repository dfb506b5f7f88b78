//! Routes through a graph, each step sharing the route it extends.

use std::rc::Rc;
use vstd::prelude::*;
use vstd::std_specs::cmp::PartialEqSpec;

verus! {

/// A route: its last position, the route it extends (none for a start), and
/// its length.
pub struct Route<ID> {
    position: ID,
    path: Option<Rc<Route<ID>>>,
    length: u32,
}

impl<ID> Route<ID> {
    /// The positions, last first, back to the start.
    pub closed spec fn positions(&self) -> Seq<ID>
        decreases self,
    {
        match self.path {
            None => seq![self.position],
            Some(p) => seq![self.position] + (*p).positions(),
        }
    }

    /// The total length recorded for the route.
    pub closed spec fn length_spec(&self) -> u32 {
        self.length
    }
}

impl<ID: Eq> Route<ID> {
    /// A route that starts, and stays, at `position`.
    pub fn start_rc(position: ID) -> (r: Rc<Self>)
        ensures
            (*r).positions() == seq![position],
            (*r).length_spec() == 0,
    {
        Rc::new(Self { position, path: None, length: 0 })
    }

    /// Whether the route passes through `node`.
    pub fn contains(&self, node: &ID) -> (r: bool)
        ensures
            ID::obeys_eq_spec() ==> r == exists|i: int|
                0 <= i < self.positions().len() && (#[trigger] self.positions()[i]).eq_spec(node),
        decreases self.positions().len(),
    {
        if self.position == *node {
            proof {
                assert(self.positions()[0] == self.position);
            }
            true
        } else {
            match &self.path {
                Some(path) => {
                    let r = path.contains(node);
                    proof {
                        let s = self.positions();
                        let t = (**path).positions();
                        assert(s == seq![self.position] + t);
                        if ID::obeys_eq_spec() {
                            if r {
                                let i = choose|i: int| 0 <= i < t.len() && (#[trigger] t[i]).eq_spec(node);
                                assert(s[i + 1] == t[i]);
                            } else {
                                assert forall|i: int| 0 <= i < s.len() implies !(#[trigger] s[i]).eq_spec(node) by {
                                    if i > 0 {
                                        assert(s[i] == t[i - 1]);
                                    }
                                }
                            }
                        }
                    }
                    r
                },
                None => {
                    proof {
                        assert(self.positions() == seq![self.position]);
                    }
                    false
                },
            }
        }
    }
}

} // verus!
