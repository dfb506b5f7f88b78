//! Generational ids: a slot index together with a generation that grows each
//! time the slot is reused, so that a stale id can be told from a live one.

use vstd::prelude::*;

verus! {

/// An id: a slot and the generation it was handed out in.
#[derive(Clone, Copy, PartialEq, Eq, Structural, Debug)]
pub struct GenData {
    pub pos: usize,
    pub gen: u64,
}

/// The state of one slot.
pub struct EntityActive {
    active: bool,
    gen: u64,
}

/// Hands out ids, reusing the slots of dropped ones.
pub struct GenManager {
    items: Vec<EntityActive>,
    drops: Vec<usize>,
}

impl GenManager {
    /// Each slot as (active, generation).
    pub closed spec fn slots(&self) -> Seq<(bool, u64)> {
        self.items@.map_values(|e: EntityActive| (e.active, e.gen))
    }

    /// The slots free for reuse; the last is reused first.
    pub closed spec fn free(&self) -> Seq<usize> {
        self.drops@
    }

    /// Every free slot exists, is inactive, and is listed once.
    pub open spec fn wf(&self) -> bool {
        &&& forall|j: int|
            0 <= j < self.free().len() ==> #[trigger] self.free()[j] < self.slots().len()
                && !self.slots()[self.free()[j] as int].0
        &&& forall|i: int, j: int|
            0 <= i < j < self.free().len() ==> #[trigger] self.free()[i] != #[trigger] self.free()[j]
    }

    /// A manager that has handed out no ids.
    pub fn new() -> (r: Self)
        ensures
            r.wf(),
            r.slots() == Seq::<(bool, u64)>::empty(),
            r.free() == Seq::<usize>::empty(),
    {
        let r = Self { items: Vec::new(), drops: Vec::new() };
        assert(r.slots() =~= Seq::<(bool, u64)>::empty());
        r
    }

    /// A fresh id: the most recently freed slot with its generation raised
    /// by one, or else a new slot at generation zero.
    pub fn next(&mut self) -> (r: GenData)
        requires
            old(self).wf(),
            old(self).free().len() > 0 ==> old(self).slots()[old(self).free().last() as int].1
                < u64::MAX,
        ensures
            final(self).wf(),
            old(self).free().len() > 0 ==> {
                &&& r.pos == old(self).free().last()
                &&& r.gen == old(self).slots()[r.pos as int].1 + 1
                &&& final(self).slots() == old(self).slots().update(r.pos as int, (true, r.gen))
                &&& final(self).free() == old(self).free().drop_last()
            },
            old(self).free().len() == 0 ==> {
                &&& r.pos == old(self).slots().len()
                &&& r.gen == 0
                &&& final(self).slots() == old(self).slots().push((true, 0))
                &&& final(self).free() == old(self).free()
            },
    {
        let ghost s0 = self.slots();
        let ghost f0 = self.free();
        match self.drops.pop() {
            Some(pos) => {
                assert(f0[f0.len() - 1] == pos);
                let gen = self.items[pos].gen + 1;
                self.items.set(pos, EntityActive { active: true, gen });
                assert(self.slots() =~= s0.update(pos as int, (true, gen)));
                assert forall|j: int| 0 <= j < self.free().len() implies #[trigger] self.free()[j]
                    < self.slots().len() && !self.slots()[self.free()[j] as int].0 by {
                    assert(self.free()[j] == f0[j]);
                    assert(f0[j] != f0[f0.len() - 1]);
                }
                assert forall|i: int, j: int|
                    0 <= i < j < self.free().len() implies #[trigger] self.free()[i]
                        != #[trigger] self.free()[j] by {
                    assert(self.free()[i] == f0[i] && self.free()[j] == f0[j]);
                }
                GenData { pos, gen }
            },
            None => {
                self.items.push(EntityActive { active: true, gen: 0 });
                assert(self.slots() =~= s0.push((true, 0)));
                assert forall|j: int| 0 <= j < self.free().len() implies #[trigger] self.free()[j]
                    < self.slots().len() && !self.slots()[self.free()[j] as int].0 by {}
                GenData { pos: self.items.len() - 1, gen: 0 }
            },
        }
    }

    /// Frees the slot of `g` if `g` is its live id; an out-of-range, stale
    /// or already dropped id changes nothing.
    pub fn drop(&mut self, g: GenData)
        requires
            old(self).wf(),
        ensures
            final(self).wf(),
            ({
                let s = old(self).slots();
                if g.pos < s.len() && s[g.pos as int].0 && s[g.pos as int].1 == g.gen {
                    &&& final(self).slots() == s.update(g.pos as int, (false, g.gen))
                    &&& final(self).free() == old(self).free().push(g.pos)
                } else {
                    &&& final(self).slots() == s
                    &&& final(self).free() == old(self).free()
                }
            }),
    {
        let ghost s0 = self.slots();
        let ghost f0 = self.free();
        if g.pos < self.items.len() {
            if self.items[g.pos].active && self.items[g.pos].gen == g.gen {
                self.items.set(g.pos, EntityActive { active: false, gen: g.gen });
                self.drops.push(g.pos);
                assert(self.slots() =~= s0.update(g.pos as int, (false, g.gen)));
                assert forall|j: int| 0 <= j < self.free().len() implies #[trigger] self.free()[j]
                    < self.slots().len() && !self.slots()[self.free()[j] as int].0 by {
                    if j < f0.len() {
                        assert(self.free()[j] == f0[j]);
                    }
                }
                assert forall|i: int, j: int|
                    0 <= i < j < self.free().len() implies #[trigger] self.free()[i]
                        != #[trigger] self.free()[j] by {
                    assert(self.free()[i] == f0[i]);
                    if j < f0.len() {
                        assert(self.free()[j] == f0[j]);
                    }
                }
            }
        }
    }
}

} // verus!
