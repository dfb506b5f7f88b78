//! A hash map that grows by incremental rehashing: when a bucket gets too
//! full, a second, larger bucket list is started, and each later insert of a
//! new key moves one bucket of the old list into it.

use vstd::prelude::*;
use crate::bucket_list::{empty_slots, lookup_in, lemma_lookup_push, lemma_no_match, push_all, BucketList};
use crate::hashing::HashBytes;

verus! {

/// The bucket size that the growth policy aims at.
pub const BSIZE: usize = 8;

/// How many buckets a new generation has beyond the current one.
pub const BGROW: usize = 8;

/// The occupancy above which a bucket starts a migration.
pub open spec fn split_threshold() -> nat {
    (BSIZE / 2) as nat
}

/// The bucket count that a migration aims at, from `n` resident buckets.
pub open spec fn grown(n: nat) -> nat {
    if n + BGROW <= usize::MAX {
        (n + BGROW) as nat
    } else {
        n
    }
}

/// `a` if it holds a value, else `b`.
pub open spec fn or_else<V>(a: Option<V>, b: Option<V>) -> Option<V> {
    if a.is_some() {
        a
    } else {
        b
    }
}

/// A map in two generations: `main` holds the resident pairs and `grow` the
/// incoming ones. While `num_moved` is positive, buckets `0..num_moved` of
/// `main` have been moved into `grow`.
#[derive(Debug)]
pub struct HMap<K, V> {
    num_moved: usize,
    main: BucketList<K, V>,
    grow: BucketList<K, V>,
}

impl<K: HashBytes, V> View for HMap<K, V> {
    type V = Map<Seq<u8>, V>;

    /// Each key representation found in either generation, with the value
    /// found for it (the resident one first).
    open spec fn view(&self) -> Map<Seq<u8>, V> {
        Map::new(
            |k: Seq<u8>| or_else(self.resident().lookup(k), self.incoming().lookup(k)).is_some(),
            |k: Seq<u8>| or_else(self.resident().lookup(k), self.incoming().lookup(k)).unwrap(),
        )
    }
}

impl<K: HashBytes, V> HMap<K, V> {
    /// The generation that lookups try first.
    pub closed spec fn resident(&self) -> BucketList<K, V> {
        self.main
    }

    /// The generation that a migration moves pairs into.
    pub closed spec fn incoming(&self) -> BucketList<K, V> {
        self.grow
    }

    /// The next resident bucket to move; zero when no migration is underway.
    pub closed spec fn cursor(&self) -> nat {
        self.num_moved as nat
    }

    /// Whether a migration is underway.
    pub open spec fn migrating(&self) -> bool {
        self.cursor() > 0
    }

    /// The number of buckets of the resident generation.
    pub open spec fn resident_buckets(&self) -> nat {
        self.resident().bucket_count()
    }

    /// The number of pairs held in both generations.
    pub open spec fn count(&self) -> nat {
        self.resident().count() + self.incoming().count()
    }

    /// Both generations are consistent and every pair sits in the bucket its
    /// key is addressed to; no key is in both; the moved buckets are empty;
    /// and between migrations the incoming generation is empty.
    pub closed spec fn wf(&self) -> bool {
        &&& self.main.wf()
        &&& self.grow.wf()
        &&& self.main.placed()
        &&& self.grow.placed()
        &&& self.count() <= usize::MAX
        &&& forall|k: Seq<u8>|
            !(#[trigger] self.main.lookup(k).is_some() && self.grow.lookup(k).is_some())
        &&& self.num_moved < self.main.bucket_count()
        &&& forall|i: int| 0 <= i < self.num_moved ==> #[trigger] self.main.slots()[i].len() == 0
        &&& self.num_moved == 0 ==> self.grow.is_empty_spec() && self.grow.bucket_count()
            <= grown(self.main.bucket_count())
        &&& self.num_moved > 0 ==> self.grow.bucket_count() >= self.main.bucket_count()
        &&& self@.dom().finite()
        &&& self@.len() == self.count()
    }

    /// Moves the bucket at the cursor into the incoming generation, and
    /// promotes that generation once every bucket has been moved.
    fn step(&mut self)
        requires
            old(self).wf(),
            old(self).num_moved > 0 || old(self).grow.bucket_count() >= old(self).main.bucket_count(),
        ensures
            final(self).wf(),
            final(self)@ == old(self)@,
            final(self).count() == old(self).count(),
            old(self).num_moved + 1 < old(self).main.bucket_count() ==> {
                &&& final(self).num_moved == old(self).num_moved + 1
                &&& final(self).main.slots() == old(self).main.slots().update(
                    old(self).num_moved as int,
                    seq![],
                )
                &&& final(self).grow.bucket_count() == old(self).grow.bucket_count()
                &&& final(self).grow.count() == old(self).grow.count() + old(self).main.slots()[old(
                    self,
                ).num_moved as int].len()
                &&& final(self).grow.seed_spec() == old(self).grow.seed_spec()
                &&& final(self).grow.slots() == push_all(
                    old(self).grow.slots(),
                    old(self).grow.seed_spec(),
                    old(self).main.slots()[old(self).num_moved as int],
                )
            },
            old(self).num_moved + 1 >= old(self).main.bucket_count() ==> {
                &&& final(self).num_moved == 0
                &&& final(self).main.bucket_count() == old(self).grow.bucket_count()
                &&& final(self).grow.count() == 0
                &&& final(self).main.seed_spec() == old(self).grow.seed_spec()
                &&& final(self).main.slots() == push_all(
                    old(self).grow.slots(),
                    old(self).grow.seed_spec(),
                    old(self).main.slots()[old(self).num_moved as int],
                )
            },
    {
        let ghost m0 = self.main;
        let ghost g0 = self.grow;
        let c = self.num_moved;
        let nb = self.main.buckets_len();
        let taken = self.main.set_bucket(c);
        let mut entries = match taken {
            Some(e) => e,
            None => Vec::new(),
        };
        let ghost orig = entries@;
        let ghost m1 = self.main;
        assert(orig == m0.slots()[c as int]);
        let ghost mut n: int = 0;
        assert(orig.take(0) =~= Seq::<(K, V)>::empty());
        while entries.len() > 0
            invariant
                self.main == m1,
                m1.slots() == m0.slots().update(c as int, seq![]),
                m1.seed_spec() == m0.seed_spec(),
                m0.wf(),
                m0.placed(),
                orig == m0.slots()[c as int],
                c < m0.bucket_count(),
                self.main.wf(),
                self.main.placed(),
                self.grow.wf(),
                self.grow.placed(),
                self.grow.seed_spec() == g0.seed_spec(),
                self.grow.bucket_count() == g0.bucket_count(),
                0 <= n <= orig.len(),
                entries@ == orig.skip(n),
                self.grow.count() == g0.count() + n,
                m0.count() + g0.count() <= usize::MAX,
                self.main.count() + orig.len() == m0.count(),
                forall|k: Seq<u8>| #[trigger]
                    self.grow.lookup(k) == or_else(g0.lookup(k), lookup_in(orig.take(n), k)),
                self.grow.slots() == push_all(g0.slots(), g0.seed_spec(), orig.take(n)),
            decreases entries@.len(),
        {
            let (key, value) = entries.remove(0);
            let ghost before = self.grow;
            proof {
                assert(orig[n] == (key, value));
                assert(orig.take(n + 1) =~= orig.take(n).push((key, value)));
                assert(orig.skip(n + 1) =~= orig.skip(n).drop_first());
                assert(orig.take(n + 1).drop_last() =~= orig.take(n));
                assert(orig.take(n + 1).last() == (key, value));
            }
            self.grow.push(key, value);
            proof {
                BucketList::lemma_push_lookup(before, self.grow, key, value);
                assert forall|k: Seq<u8>| #[trigger]
                    self.grow.lookup(k) == or_else(g0.lookup(k), lookup_in(orig.take(n + 1), k)) by {
                    lemma_lookup_push(orig.take(n), (key, value), k);
                }
                n = n + 1;
            }
        }
        proof {
            assert(orig.skip(n).len() == 0);
            assert(n == orig.len());
            assert(orig.take(n) =~= orig);
            assert forall|k: Seq<u8>| #[trigger] self.main.lookup(k) == (if m0.index_of(k) == c {
                None
            } else {
                m0.lookup(k)
            }) by {
                m0.lemma_index_in_range(k);
            }
            assert forall|k: Seq<u8>| m0.index_of(k) != c implies #[trigger] lookup_in(orig, k).is_none() by {
                assert forall|j: int| 0 <= j < orig.len() implies orig[j].0.hash_bytes() != k by {
                    assert(m0.index_of(m0.slots()[c as int][j].0.hash_bytes()) == c);
                }
                lemma_no_match(orig, k);
            }
            assert forall|k: Seq<u8>|
                !(#[trigger] self.main.lookup(k).is_some() && self.grow.lookup(k).is_some()) by {
                assert(self.grow.lookup(k) == or_else(g0.lookup(k), lookup_in(orig, k)));
                assert(!(m0.lookup(k).is_some() && g0.lookup(k).is_some()));
                if m0.index_of(k) != c {
                    assert(lookup_in(orig, k).is_none());
                }
            }
            assert forall|i: int| 0 <= i < c + 1 implies #[trigger] self.main.slots()[i].len() == 0 by {
            }
        }
        self.num_moved = c + 1;
        assert(self@ =~= old(self)@) by {
            assert forall|k: Seq<u8>|
                #[trigger] or_else(self.main.lookup(k), self.grow.lookup(k)) == or_else(
                    m0.lookup(k),
                    g0.lookup(k),
                ) by {
                assert(self.grow.lookup(k) == or_else(g0.lookup(k), lookup_in(orig, k)));
                assert(!(m0.lookup(k).is_some() && g0.lookup(k).is_some()));
                if m0.index_of(k) != c {
                    assert(lookup_in(orig, k).is_none());
                } else {
                    assert(self.main.lookup(k).is_none());
                    assert(lookup_in(orig, k) == m0.lookup(k));
                }
            }
        }
        if self.num_moved == nb {
            proof {
                assert forall|i: int| 0 <= i < self.main.bucket_count() implies #[trigger] self.main.slots()[i].len() == 0 by {}
                assert forall|k: Seq<u8>| #[trigger] self.main.lookup(k).is_none() by {
                    self.main.lemma_empty_lookup(k);
                }
            }
            proof {
                self.main.lemma_empty_count();
            }
            std::mem::swap(&mut self.main, &mut self.grow);
            self.num_moved = 0;
            assert(self@ =~= old(self)@);
        }
    }
}

impl<K: HashBytes, V> HMap<K, V> {
    /// An empty map, in the stable state.
    pub fn new() -> (r: Self)
        ensures
            r.wf(),
            r@ == Map::<Seq<u8>, V>::empty(),
            r.count() == 0,
            !r.migrating(),
            r.resident_buckets() == 1,
            r.resident().is_empty_spec(),
            r.incoming().count() == 0,
    {
        let main = BucketList::new();
        let grow = BucketList::new();
        let r = HMap { num_moved: 0, main, grow };
        proof {
            r.grow.lemma_empty_count();
            assert forall|k: Seq<u8>| #[trigger] r.main.lookup(k).is_none() && r.grow.lookup(k).is_none() by {
                r.main.lemma_empty_lookup(k);
                r.grow.lemma_empty_lookup(k);
            }
        }
        assert(r@ =~= Map::<Seq<u8>, V>::empty());
        r
    }

    /// The number of pairs held: the sum over both generations.
    pub fn len(&self) -> (r: usize)
        requires
            self.wf(),
        ensures
            r == self.count(),
            r == self@.len(),
    {
        self.main.len() + self.grow.len()
    }

    /// Performs one migration step, starting a migration first if none is
    /// underway: the incoming generation is sized to `BGROW` more buckets
    /// than the resident one. What the map holds does not change.
    pub fn move_bucket(&mut self)
        requires
            old(self).wf(),
        ensures
            final(self).wf(),
            final(self)@ == old(self)@,
            final(self).count() == old(self).count(),
            final(self).resident().placed(),
            final(self).incoming().placed(),
            !final(self).migrating() ==> final(self).incoming().count() == 0,
            old(self).migrating() ==> if old(self).cursor() + 1 < old(self).resident_buckets() {
                &&& final(self).cursor() == old(self).cursor() + 1
                &&& final(self).resident_buckets() == old(self).resident_buckets()
                &&& final(self).resident().slots() == old(self).resident().slots().update(
                    old(self).cursor() as int,
                    seq![],
                )
                &&& final(self).incoming().bucket_count() == old(self).incoming().bucket_count()
                &&& final(self).incoming().count() == old(self).incoming().count() + old(
                    self,
                ).resident().slots()[old(self).cursor() as int].len()
                &&& final(self).incoming().seed_spec() == old(self).incoming().seed_spec()
                &&& final(self).incoming().slots() == push_all(
                    old(self).incoming().slots(),
                    old(self).incoming().seed_spec(),
                    old(self).resident().slots()[old(self).cursor() as int],
                )
            } else {
                &&& !final(self).migrating()
                &&& final(self).resident_buckets() == old(self).incoming().bucket_count()
                &&& final(self).incoming().count() == 0
                &&& final(self).resident().seed_spec() == old(self).incoming().seed_spec()
                &&& final(self).resident().slots() == push_all(
                    old(self).incoming().slots(),
                    old(self).incoming().seed_spec(),
                    old(self).resident().slots()[old(self).cursor() as int],
                )
            },
            !old(self).migrating() ==> if old(self).resident_buckets() > 1 {
                &&& final(self).cursor() == 1
                &&& final(self).resident_buckets() == old(self).resident_buckets()
                &&& final(self).resident().slots() == old(self).resident().slots().update(0, seq![])
                &&& final(self).incoming().bucket_count() == grown(old(self).resident_buckets())
                &&& final(self).incoming().count() == old(self).resident().slots()[0].len()
                &&& final(self).incoming().seed_spec() == old(self).incoming().seed_spec()
                &&& final(self).incoming().slots() == push_all(
                    empty_slots(grown(old(self).resident_buckets())),
                    old(self).incoming().seed_spec(),
                    old(self).resident().slots()[0],
                )
            } else {
                &&& !final(self).migrating()
                &&& final(self).resident_buckets() == grown(old(self).resident_buckets())
                &&& final(self).incoming().count() == 0
                &&& final(self).resident().seed_spec() == old(self).incoming().seed_spec()
                &&& final(self).resident().slots() == push_all(
                    empty_slots(grown(old(self).resident_buckets())),
                    old(self).incoming().seed_spec(),
                    old(self).resident().slots()[0],
                )
            },
    {
        if self.num_moved == 0 {
            let n = self.main.buckets_len();
            let target = if n <= usize::MAX - BGROW {
                n + BGROW
            } else {
                n
            };
            proof {
                old(self).grow.lemma_empty_count();
            }
            self.grow.set_buckets(target);
            proof {
                assert(self.grow.bucket_count() == target);
                assert forall|i: int| 0 <= i < target implies #[trigger] self.grow.slots()[i]
                    == Seq::<(K, V)>::empty() by {
                    if i < old(self).grow.bucket_count() {
                        assert(old(self).grow.slots()[i].len() == 0);
                    }
                    assert(self.grow.slots()[i] =~= Seq::<(K, V)>::empty());
                }
                assert(self.grow.slots() =~= empty_slots(target as nat));
            }
            proof {
                assert forall|k: Seq<u8>| #[trigger] self.grow.lookup(k).is_none() by {
                    self.grow.lemma_empty_lookup(k);
                }
                assert forall|k: Seq<u8>| #[trigger] old(self).grow.lookup(k).is_none() by {
                    old(self).grow.lemma_empty_lookup(k);
                }
                assert forall|i: int, j: int|
                    0 <= i < self.grow.bucket_count() && 0 <= j < #[trigger] self.grow.slots()[i].len()
                        implies self.grow.index_of(#[trigger] self.grow.slots()[i][j].0.hash_bytes()) == i by {}
                assert forall|k: Seq<u8>|
                    #[trigger] or_else(self.main.lookup(k), self.grow.lookup(k)) == or_else(
                        old(self).main.lookup(k),
                        old(self).grow.lookup(k),
                    ) by {}
            }
            assert(self@ =~= old(self)@);
        }
        self.step();
    }

    /// Stores `value` under `key`. An existing key keeps its place and gets
    /// the new value. A new key goes to the incoming generation while a
    /// migration is underway, and then one migration step runs; otherwise it
    /// goes to the resident generation, and a bucket that grows past the
    /// threshold starts a migration.
    #[verifier::rlimit(80)]
    pub fn insert(&mut self, key: K, value: V)
        requires
            old(self).wf(),
            !old(self)@.contains_key(key.hash_bytes()) ==> old(self).count() < usize::MAX,
        ensures
            final(self).wf(),
            final(self)@ == old(self)@.insert(key.hash_bytes(), value),
            final(self).count() == old(self).count() + if old(self)@.contains_key(key.hash_bytes()) {
                0int
            } else {
                1int
            },
            final(self).resident().placed(),
            final(self).incoming().placed(),
            !final(self).migrating() ==> final(self).incoming().count() == 0,
            old(self)@.contains_key(key.hash_bytes()) ==> final(self).cursor() == old(self).cursor()
                && final(self).resident_buckets() == old(self).resident_buckets(),
            !old(self)@.contains_key(key.hash_bytes()) && old(self).migrating() ==> if old(
                self,
            ).cursor() + 1 < old(self).resident_buckets() {
                &&& final(self).cursor() == old(self).cursor() + 1
                &&& final(self).resident_buckets() == old(self).resident_buckets()
                &&& final(self).incoming().bucket_count() == old(self).incoming().bucket_count()
            } else {
                &&& !final(self).migrating()
                &&& final(self).resident_buckets() == old(self).incoming().bucket_count()
            },
            !old(self)@.contains_key(key.hash_bytes()) && !old(self).migrating() ==> {
                let i = old(self).resident().index_of(key.hash_bytes());
                let b = old(self).resident().slots()[i];
                if b.len() >= split_threshold() {
                    if old(self).resident_buckets() > 1 {
                        &&& final(self).cursor() == 1
                        &&& final(self).resident_buckets() == old(self).resident_buckets()
                        &&& final(self).incoming().bucket_count() == grown(
                            old(self).resident_buckets(),
                        )
                    } else {
                        &&& !final(self).migrating()
                        &&& final(self).resident_buckets() == grown(old(self).resident_buckets())
                    }
                } else {
                    &&& !final(self).migrating()
                    &&& final(self).resident_buckets() == old(self).resident_buckets()
                    &&& final(self).resident().slots() == old(self).resident().slots().update(
                        i,
                        b.push((key, value)),
                    )
                }
            },
    {
        let ghost kb = key.hash_bytes();
        let ghost m0 = self.main;
        let ghost g0 = self.grow;
        proof {
            m0.lemma_index_in_range(kb);
            if self.num_moved == 0 {
                g0.lemma_empty_count();
            }
        }
        if let Some(existing) = self.main.get_mut(&key) {
            proof {
                BucketList::lemma_value_update(m0, after_borrow(self.main), kb, *final(existing));
            }
            *existing = value;
            assert(self@ =~= old(self)@.insert(kb, value)) by {
                assert forall|k: Seq<u8>|
                    #[trigger] or_else(self.main.lookup(k), self.grow.lookup(k)) == if k == kb {
                        Some(value)
                    } else {
                        or_else(m0.lookup(k), g0.lookup(k))
                    } by {}
            }
            return;
        }
        if let Some(existing) = self.grow.get_mut(&key) {
            proof {
                BucketList::lemma_value_update(g0, after_borrow(self.grow), kb, *final(existing));
            }
            *existing = value;
            assert(self@ =~= old(self)@.insert(kb, value)) by {
                assert forall|k: Seq<u8>|
                    #[trigger] or_else(self.main.lookup(k), self.grow.lookup(k)) == if k == kb {
                        Some(value)
                    } else {
                        or_else(m0.lookup(k), g0.lookup(k))
                    } by {}
            }
            return;
        }
        if self.num_moved > 0 {
            self.grow.push(key, value);
            proof {
                BucketList::lemma_push_lookup(g0, self.grow, key, value);
            }
            assert(self@ =~= old(self)@.insert(kb, value)) by {
                assert forall|k: Seq<u8>|
                    #[trigger] or_else(self.main.lookup(k), self.grow.lookup(k)) == if k == kb {
                        Some(value)
                    } else {
                        or_else(m0.lookup(k), g0.lookup(k))
                    } by {}
            }
            self.step();
        } else {
            let occupancy = self.main.push(key, value);
            proof {
                BucketList::lemma_push_lookup(m0, self.main, key, value);
                assert forall|k: Seq<u8>| #[trigger] g0.lookup(k).is_none() by {
                    g0.lemma_empty_lookup(k);
                }
            }
            assert(self@ =~= old(self)@.insert(kb, value)) by {
                assert forall|k: Seq<u8>|
                    #[trigger] or_else(self.main.lookup(k), self.grow.lookup(k)) == if k == kb {
                        Some(value)
                    } else {
                        or_else(m0.lookup(k), g0.lookup(k))
                    } by {}
            }
            if occupancy > BSIZE / 2 {
                self.move_bucket();
            }
        }
    }

    /// The value stored under a key with the same representation as `key`.
    pub fn get<Q: HashBytes + ?Sized>(&self, key: &Q) -> (r: Option<&V>)
        requires
            self.wf(),
        ensures
            r.is_some() == self@.contains_key(key.hash_bytes()),
            r.is_some() ==> *r.unwrap() == self@[key.hash_bytes()],
    {
        match self.main.get(key) {
            Some(v) => Some(v),
            None => self.grow.get(key),
        }
    }

    /// A mutable reference to the value stored under a key with the same
    /// representation as `key`; what is written through it is what the map
    /// then holds for that key.
    pub fn get_mut<Q: HashBytes + ?Sized>(&mut self, key: &Q) -> (r: Option<&mut V>)
        requires
            old(self).wf(),
        ensures
            !old(self)@.contains_key(key.hash_bytes()) ==> r.is_none() && *final(self) == *old(
                self,
            ),
            old(self)@.contains_key(key.hash_bytes()) ==> r.is_some() && *r.unwrap() == old(
                self,
            )@[key.hash_bytes()],
            old(self)@.contains_key(key.hash_bytes()) ==> final(self).wf() && final(self)@ == old(
                self,
            )@.insert(key.hash_bytes(), *final(r.unwrap())) && final(self).count() == old(
                self,
            ).count() && final(self).cursor() == old(self).cursor() && final(self).resident_buckets()
                == old(self).resident_buckets(),
    {
        let ghost kb = key.hash_bytes();
        let ghost m0 = self.main;
        let ghost g0 = self.grow;
        if let Some(v) = self.main.get_mut(key) {
            proof {
                BucketList::lemma_value_update(m0, after_borrow(self.main), kb, *final(v));
                assert(after_borrow(*self)@ =~= old(self)@.insert(kb, *final(v))) by {
                    assert forall|k: Seq<u8>|
                        #[trigger] or_else(after_borrow(self.main).lookup(k), g0.lookup(k)) == if k == kb {
                            Some(*final(v))
                        } else {
                            or_else(m0.lookup(k), g0.lookup(k))
                        } by {}
                }
            }
            Some(v)
        } else {
            match self.grow.get_mut(key) {
                Some(v) => {
                    proof {
                        BucketList::lemma_value_update(g0, after_borrow(self.grow), kb, *final(v));
                        assert(after_borrow(*self)@ =~= old(self)@.insert(kb, *final(v))) by {
                            assert forall|k: Seq<u8>|
                                #[trigger] or_else(m0.lookup(k), after_borrow(self.grow).lookup(k)) == if k == kb {
                                    Some(*final(v))
                                } else {
                                    or_else(m0.lookup(k), g0.lookup(k))
                                } by {}
                        }
                    }
                    Some(v)
                },
                None => None,
            }
        }
    }
}

/// Round trip: along a run of maps that starts empty and where each map is
/// the one before after an insert (as `new` and `insert` state), with
/// distinct keys, every map holds each key inserted so far with the value
/// inserted under it, whatever migrations happened in between.
pub proof fn lemma_round_trip<K: HashBytes, V>(
    maps: Seq<HMap<K, V>>,
    keys: Seq<Seq<u8>>,
    vals: Seq<V>,
)
    requires
        maps.len() == keys.len() + 1,
        vals.len() == keys.len(),
        maps[0]@ == Map::<Seq<u8>, V>::empty(),
        forall|i: int| 0 <= i < keys.len() ==> maps[i + 1]@ == maps[i]@.insert(#[trigger] keys[i], vals[i]),
        forall|i: int, j: int| 0 <= i < j < keys.len() ==> #[trigger] keys[i] != #[trigger] keys[j],
    ensures
        forall|j: int|
            0 <= j <= keys.len() ==> forall|i: int|
                0 <= i < j ==> (#[trigger] maps[j]@).contains_key(#[trigger] keys[i])
                    && maps[j]@[keys[i]] == vals[i],
{
    assert forall|j: int| 0 <= j <= keys.len() implies forall|i: int|
        0 <= i < j ==> (#[trigger] maps[j]@).contains_key(#[trigger] keys[i]) && maps[j]@[keys[i]]
            == vals[i] by {
        lemma_round_trip_at(maps, keys, vals, j);
    }
}

proof fn lemma_round_trip_at<K: HashBytes, V>(
    maps: Seq<HMap<K, V>>,
    keys: Seq<Seq<u8>>,
    vals: Seq<V>,
    j: int,
)
    requires
        0 <= j <= keys.len(),
        maps.len() == keys.len() + 1,
        vals.len() == keys.len(),
        forall|i: int| 0 <= i < keys.len() ==> maps[i + 1]@ == maps[i]@.insert(#[trigger] keys[i], vals[i]),
        forall|i: int, j: int| 0 <= i < j < keys.len() ==> #[trigger] keys[i] != #[trigger] keys[j],
    ensures
        forall|i: int| 0 <= i < j ==> maps[j]@.contains_key(#[trigger] keys[i]) && maps[j]@[keys[i]] == vals[i],
    decreases j,
{
    if j > 0 {
        lemma_round_trip_at(maps, keys, vals, j - 1);
        assert(maps[j]@ == maps[j - 1]@.insert(keys[j - 1], vals[j - 1]));
        assert forall|i: int| 0 <= i < j implies maps[j]@.contains_key(#[trigger] keys[i]) && maps[j]@[keys[i]] == vals[i] by {
            if i < j - 1 {
                assert(keys[i] != keys[j - 1]);
            }
        }
    }
}

/// Overwriting: an insert under a key already held changes only that key's
/// value; the keys, their number and the count stay the same.
pub proof fn lemma_overwrite<K: HashBytes, V>(
    before: HMap<K, V>,
    after: HMap<K, V>,
    k: Seq<u8>,
    v: V,
)
    requires
        before.wf(),
        before@.contains_key(k),
        after@ == before@.insert(k, v),
        after.count() == before.count() + if before@.contains_key(k) {
            0int
        } else {
            1int
        },
    ensures
        after@[k] == v,
        forall|k2: Seq<u8>| k2 != k && #[trigger] before@.contains_key(k2) ==> after@[k2] == before@[k2],
        after@.dom() == before@.dom(),
        after@.len() == before@.len(),
        after.count() == before.count(),
{
    assert(after@.dom() =~= before@.dom());
}

/// Growth: inserting a new key, whether or not it starts or advances a
/// migration, keeps every key held before with its value, and adds one to
/// the number of keys and to the count.
pub proof fn lemma_growth_keeps_keys<K: HashBytes, V>(
    before: HMap<K, V>,
    after: HMap<K, V>,
    k: Seq<u8>,
    v: V,
)
    requires
        before.wf(),
        !before@.contains_key(k),
        after@ == before@.insert(k, v),
        after.count() == before.count() + if before@.contains_key(k) {
            0int
        } else {
            1int
        },
    ensures
        forall|k2: Seq<u8>| #[trigger]
            before@.contains_key(k2) ==> after@.contains_key(k2) && after@[k2] == before@[k2],
        after@.contains_key(k) && after@[k] == v,
        after@.len() == before@.len() + 1,
        after.count() == before.count() + 1,
{
}

/// Mutation visibility: after a write of `w` through the reference that
/// `get_mut` hands out for `k`, a lookup of `k` finds `w`, and nothing else
/// changed.
pub proof fn lemma_mutation_visible<K: HashBytes, V>(
    before: HMap<K, V>,
    after: HMap<K, V>,
    k: Seq<u8>,
    w: V,
)
    requires
        before@.contains_key(k),
        after@ == before@.insert(k, w),
    ensures
        after@.contains_key(k),
        after@[k] == w,
        forall|k2: Seq<u8>| k2 != k ==> #[trigger] after@.contains_key(k2) == before@.contains_key(k2),
{
}

} // verus!
