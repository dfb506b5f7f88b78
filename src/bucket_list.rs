//! A growable array of buckets, each an insertion-ordered list of key/value
//! pairs, addressed by the seeded hash of the key.

use vstd::prelude::*;
use crate::hashing::{hash_raw, hash_of, bytes_equal, HashBytes};

verus! {

/// The value of the first pair in `b` whose key has the representation `k`.
pub open spec fn lookup_in<K: HashBytes, V>(b: Seq<(K, V)>, k: Seq<u8>) -> Option<V>
    decreases b.len(),
{
    if b.len() == 0 {
        None
    } else if b[0].0.hash_bytes() == k {
        Some(b[0].1)
    } else {
        lookup_in(b.drop_first(), k)
    }
}

/// The position of the first pair in `b` whose key has the representation `k`
/// (meaningful where there is one).
pub open spec fn match_pos<K: HashBytes, V>(b: Seq<(K, V)>, k: Seq<u8>) -> int
    decreases b.len(),
{
    if b.len() == 0 || b[0].0.hash_bytes() == k {
        0
    } else {
        1 + match_pos(b.drop_first(), k)
    }
}

/// `slots` after each pair of `es`, in order, is appended to the bucket its
/// key is addressed to under `seed`: what a run of `push` calls does.
pub open spec fn push_all<K: HashBytes, V>(
    slots: Seq<Seq<(K, V)>>,
    seed: u64,
    es: Seq<(K, V)>,
) -> Seq<Seq<(K, V)>>
    decreases es.len(),
{
    if es.len() == 0 {
        slots
    } else {
        let s = push_all(slots, seed, es.drop_last());
        let i = hash_of(seed, es.last().0.hash_bytes()) as int % slots.len() as int;
        s.update(i, s[i].push(es.last()))
    }
}

/// `n` empty buckets.
pub open spec fn empty_slots<K, V>(n: nat) -> Seq<Seq<(K, V)>> {
    Seq::new(n, |i: int| Seq::<(K, V)>::empty())
}

/// The number of pairs over all buckets.
pub open spec fn total<K, V>(s: Seq<Seq<(K, V)>>) -> nat
    decreases s.len(),
{
    if s.len() == 0 {
        0
    } else {
        total(s.drop_last()) + s.last().len()
    }
}

/// The first match position is in range and holds the first match.
pub proof fn lemma_match_pos<K: HashBytes, V>(b: Seq<(K, V)>, k: Seq<u8>)
    requires
        lookup_in(b, k).is_some(),
    ensures
        0 <= match_pos(b, k) < b.len(),
        b[match_pos(b, k)].0.hash_bytes() == k,
        lookup_in(b, k) == Some(b[match_pos(b, k)].1),
        forall|j: int| 0 <= j < match_pos(b, k) ==> b[j].0.hash_bytes() != k,
    decreases b.len(),
{
    if b[0].0.hash_bytes() != k {
        lemma_match_pos(b.drop_first(), k);
        let t = b.drop_first();
        assert forall|j: int| 0 <= j < match_pos(b, k) implies b[j].0.hash_bytes() != k by {
            if j > 0 {
                assert(b[j] == t[j - 1]);
            }
        }
    }
}

/// A sequence without a match for `k` gives no value for it.
pub proof fn lemma_no_match<K: HashBytes, V>(b: Seq<(K, V)>, k: Seq<u8>)
    requires
        forall|j: int| 0 <= j < b.len() ==> b[j].0.hash_bytes() != k,
    ensures
        lookup_in(b, k).is_none(),
    decreases b.len(),
{
    if b.len() > 0 {
        lemma_no_match(b.drop_first(), k);
    }
}

/// Looking up in `b` with a pair appended.
pub proof fn lemma_lookup_push<K: HashBytes, V>(b: Seq<(K, V)>, e: (K, V), k: Seq<u8>)
    ensures
        lookup_in(b.push(e), k) == (if lookup_in(b, k).is_some() {
            lookup_in(b, k)
        } else if e.0.hash_bytes() == k {
            Some(e.1)
        } else {
            None
        }),
    decreases b.len(),
{
    if b.len() > 0 {
        assert(b.push(e)[0] == b[0]);
        assert(b.push(e).drop_first() =~= b.drop_first().push(e));
        lemma_lookup_push(b.drop_first(), e, k);
    } else {
        assert(b.push(e)[0] == e);
        assert(b.push(e).drop_first() =~= Seq::<(K, V)>::empty());
        assert(lookup_in(b.push(e).drop_first(), k).is_none());
        assert(lookup_in(b, k).is_none());
    }
}

/// Replacing the value of one pair leaves every other key's lookup alone and
/// gives the new value for that pair's key, when it is the first match.
pub proof fn lemma_lookup_update<K: HashBytes, V>(b: Seq<(K, V)>, p: int, v: V, k: Seq<u8>)
    requires
        0 <= p < b.len(),
        forall|j: int| 0 <= j < p ==> b[j].0.hash_bytes() != b[p].0.hash_bytes(),
    ensures
        lookup_in(b.update(p, (b[p].0, v)), k) == (if k == b[p].0.hash_bytes() {
            Some(v)
        } else {
            lookup_in(b, k)
        }),
    decreases b.len(),
{
    let c = b.update(p, (b[p].0, v));
    if p > 0 {
        let t = b.drop_first();
        assert(c[0] == b[0]);
        assert(c.drop_first() =~= t.update(p - 1, (t[p - 1].0, v)));
        assert forall|j: int| 0 <= j < p - 1 implies (#[trigger] t[j]).0.hash_bytes() != t[p - 1].0.hash_bytes() by {
            assert(t[j] == b[j + 1]);
        }
        lemma_lookup_update(t, p - 1, v, k);
    } else {
        assert(c[0] == (b[0].0, v));
        assert(c.drop_first() =~= b.drop_first());
    }
}

/// Buckets that are all empty hold no pairs.
pub proof fn lemma_total_empty<K, V>(s: Seq<Seq<(K, V)>>)
    requires
        forall|i: int| 0 <= i < s.len() ==> #[trigger] s[i].len() == 0,
    ensures
        total(s) == 0,
    decreases s.len(),
{
    if s.len() > 0 {
        assert(s.last().len() == 0);
        let t = s.drop_last();
        assert forall|i: int| 0 <= i < t.len() implies #[trigger] t[i].len() == 0 by {
            assert(t[i] == s[i]);
        }
        lemma_total_empty(t);
    }
}

/// The count after one bucket is replaced.
pub proof fn lemma_total_update<K, V>(s: Seq<Seq<(K, V)>>, i: int, b: Seq<(K, V)>)
    requires
        0 <= i < s.len(),
    ensures
        total(s.update(i, b)) == total(s) - s[i].len() + b.len(),
        total(s) >= s[i].len(),
    decreases s.len(),
{
    let t = s.update(i, b);
    if i < s.len() - 1 {
        assert(t.drop_last() =~= s.drop_last().update(i, b));
        lemma_total_update(s.drop_last(), i, b);
    } else {
        assert(t.drop_last() =~= s.drop_last());
    }
}

/// An array of buckets with its own seed. A pair sits in bucket
/// `hash(seed, key) % bucket_count`, unless the bucket count grew after it
/// was placed.
#[derive(Debug)]
pub struct BucketList<K, V> {
    seed: u64,
    len: usize,
    buckets: Vec<Vec<(K, V)>>,
}

impl<K: HashBytes, V> BucketList<K, V> {
    /// The seed that addresses the buckets.
    pub closed spec fn seed_spec(&self) -> u64 {
        self.seed
    }

    /// The buckets' contents, in bucket order.
    pub closed spec fn slots(&self) -> Seq<Seq<(K, V)>> {
        self.buckets@.map_values(|b: Vec<(K, V)>| b@)
    }

    /// There is at least one bucket, and the stored count is the number of
    /// pairs held.
    pub closed spec fn wf(&self) -> bool {
        &&& self.buckets@.len() >= 1
        &&& self.len as nat == total(self.slots())
    }

    /// The number of pairs held.
    pub open spec fn count(&self) -> nat {
        total(self.slots())
    }

    /// The number of buckets.
    pub open spec fn bucket_count(&self) -> nat {
        self.slots().len()
    }

    /// The bucket that a key with representation `k` is addressed to.
    pub open spec fn index_of(&self, k: Seq<u8>) -> int {
        hash_of(self.seed_spec(), k) as int % self.bucket_count() as int
    }

    /// What a lookup of `k` finds: the first match in its bucket.
    pub open spec fn lookup(&self, k: Seq<u8>) -> Option<V> {
        lookup_in(self.slots()[self.index_of(k)], k)
    }

    /// Every pair sits in the bucket that its key is addressed to.
    pub open spec fn placed(&self) -> bool {
        forall|i: int, j: int|
            0 <= i < self.bucket_count() && 0 <= j < #[trigger] self.slots()[i].len()
                ==> self.index_of(#[trigger] self.slots()[i][j].0.hash_bytes()) == i
    }

    /// Every bucket is empty.
    pub open spec fn is_empty_spec(&self) -> bool {
        forall|i: int| 0 <= i < self.bucket_count() ==> #[trigger] self.slots()[i].len() == 0
    }

    fn bucket_index(&self, kb: &Vec<u8>) -> (r: usize)
        requires
            self.wf(),
        ensures
            r as int == self.index_of(kb@),
            r < self.buckets@.len(),
    {
        let h = hash_raw(self.seed, kb.as_slice());
        (h % (self.buckets.len() as u64)) as usize
    }

    /// The bucket index for `kb` and the position of the first pair with
    /// that key in it.
    fn find(&self, kb: &Vec<u8>) -> (r: (usize, Option<usize>))
        requires
            self.wf(),
        ensures
            r.0 as int == self.index_of(kb@),
            r.0 < self.buckets@.len(),
            r.1.is_none() <==> self.lookup(kb@).is_none(),
            r.1.is_some() ==> r.1.unwrap() as int == match_pos(self.slots()[r.0 as int], kb@),
    {
        let b = self.bucket_index(kb);
        let bucket = &self.buckets[b];
        let ghost s = bucket@;
        assert(s == self.slots()[b as int]);
        let mut j: usize = 0;
        assert(s.skip(0) =~= s);
        while j < bucket.len()
            invariant
                self.wf(),
                b as int == self.index_of(kb@),
                b < self.buckets@.len(),
                s == self.slots()[b as int],
                j <= s.len(),
                s == bucket@,
                lookup_in(s, kb@) == lookup_in(s.skip(j as int), kb@),
                match_pos(s, kb@) == j + match_pos(s.skip(j as int), kb@),
            decreases s.len() - j,
        {
            let stored = bucket[j].0.to_hash_bytes();
            proof {
                let t = s.skip(j as int);
                assert(t[0] == s[j as int]);
                assert(t.drop_first() =~= s.skip(j + 1));
            }
            if bytes_equal(stored.as_slice(), kb.as_slice()) {
                return (b, Some(j));
            }
            j = j + 1;
        }
        (b, None)
    }
}

impl<K: HashBytes, V> BucketList<K, V> {
    /// A key is addressed to an existing bucket.
    pub proof fn lemma_index_in_range(&self, k: Seq<u8>)
        requires
            self.wf(),
        ensures
            0 <= self.index_of(k) < self.bucket_count(),
    {
    }

    /// With every bucket empty, nothing is held.
    pub proof fn lemma_empty_count(&self)
        requires
            self.is_empty_spec(),
        ensures
            self.count() == 0,
    {
        lemma_total_empty(self.slots());
    }

    /// With every bucket empty, nothing is found.
    pub proof fn lemma_empty_lookup(&self, k: Seq<u8>)
        requires
            self.wf(),
            self.is_empty_spec(),
        ensures
            self.lookup(k).is_none(),
    {
        self.lemma_index_in_range(k);
        assert(self.slots()[self.index_of(k)].len() == 0);
    }

    /// Lookups after the value of the pair found for `k` is replaced by `v`.
    pub proof fn lemma_value_update(a: Self, c: Self, k: Seq<u8>, v: V)
        requires
            a.wf(),
            a.lookup(k).is_some(),
            c.seed_spec() == a.seed_spec(),
            c.slots() == a.slots().update(
                a.index_of(k),
                a.slots()[a.index_of(k)].update(
                    match_pos(a.slots()[a.index_of(k)], k),
                    (
                        a.slots()[a.index_of(k)][match_pos(a.slots()[a.index_of(k)], k)].0,
                        v,
                    ),
                ),
            ),
        ensures
            c.bucket_count() == a.bucket_count(),
            c.count() == a.count(),
            forall|i: int| 0 <= i < a.bucket_count() ==> #[trigger] c.slots()[i].len() == a.slots()[i].len(),
            forall|k2: Seq<u8>| #[trigger]
                c.lookup(k2) == if k2 == k {
                    Some(v)
                } else {
                    a.lookup(k2)
                },
            a.placed() ==> c.placed(),
    {
        let i = a.index_of(k);
        let b = a.slots()[i];
        let p = match_pos(b, k);
        a.lemma_index_in_range(k);
        lemma_match_pos(b, k);
        lemma_total_update(a.slots(), i, b.update(p, (b[p].0, v)));
        assert forall|k2: Seq<u8>| #[trigger]
            c.lookup(k2) == if k2 == k {
                Some(v)
            } else {
                a.lookup(k2)
            } by {
            lemma_lookup_update(b, p, v, k2);
        }
        if a.placed() {
            assert forall|i2: int, j: int|
                0 <= i2 < c.bucket_count() && 0 <= j < #[trigger] c.slots()[i2].len()
                    implies c.index_of(#[trigger] c.slots()[i2][j].0.hash_bytes()) == i2 by {
                assert(a.slots()[i2][j].0 == c.slots()[i2][j].0);
            }
        }
    }

    /// Lookups after a pair is appended to the bucket its key is addressed to.
    pub proof fn lemma_push_lookup(a: Self, c: Self, key: K, value: V)
        requires
            a.wf(),
            c.seed_spec() == a.seed_spec(),
            c.slots() == a.slots().update(
                a.index_of(key.hash_bytes()),
                a.slots()[a.index_of(key.hash_bytes())].push((key, value)),
            ),
        ensures
            forall|k2: Seq<u8>| #[trigger]
                c.lookup(k2) == if k2 == key.hash_bytes() && a.lookup(k2).is_none() {
                    Some(value)
                } else {
                    a.lookup(k2)
                },
    {
        let i = a.index_of(key.hash_bytes());
        a.lemma_index_in_range(key.hash_bytes());
        assert forall|k2: Seq<u8>| #[trigger]
            c.lookup(k2) == if k2 == key.hash_bytes() && a.lookup(k2).is_none() {
                Some(value)
            } else {
                a.lookup(k2)
            } by {
            lemma_lookup_push(a.slots()[i], (key, value), k2);
        }
    }
}

/// Relies on rand::random, which draws a value from the thread-local
/// generator: nothing is known of the value drawn.
pub assume_specification<T>[ rand::random::<T> ]() -> (r: T)
    where
        rand::distributions::Standard: rand::distributions::Distribution<T>,
;

impl<K: HashBytes, V> BucketList<K, V> {
    /// A list of one empty bucket, with a freshly drawn seed.
    pub fn new() -> (r: Self)
        ensures
            r.wf(),
            r.bucket_count() == 1,
            r.count() == 0,
            r.is_empty_spec(),
            r.placed(),
    {
        let mut buckets: Vec<Vec<(K, V)>> = Vec::new();
        buckets.push(Vec::new());
        let r = BucketList { seed: rand::random::<u64>(), len: 0, buckets };
        assert(r.slots().drop_last() =~= Seq::<Seq<(K, V)>>::empty());
        assert(total(Seq::<Seq<(K, V)>>::empty()) == 0);
        r
    }

    /// The number of pairs held.
    pub fn len(&self) -> (r: usize)
        requires
            self.wf(),
        ensures
            r == self.count(),
    {
        self.len
    }

    /// The number of buckets.
    pub fn buckets_len(&self) -> (r: usize)
        ensures
            r == self.bucket_count(),
    {
        self.buckets.len()
    }

    /// Appends the pair to the bucket its key is addressed to, and returns
    /// that bucket's new length. It does not look for the key first.
    pub fn push(&mut self, key: K, value: V) -> (r: usize)
        requires
            old(self).wf(),
            old(self).count() < usize::MAX,
        ensures
            final(self).wf(),
            final(self).seed_spec() == old(self).seed_spec(),
            final(self).bucket_count() == old(self).bucket_count(),
            final(self).slots() == old(self).slots().update(
                old(self).index_of(key.hash_bytes()),
                old(self).slots()[old(self).index_of(key.hash_bytes())].push((key, value)),
            ),
            final(self).count() == old(self).count() + 1,
            r == final(self).slots()[old(self).index_of(key.hash_bytes())].len(),
            old(self).placed() ==> final(self).placed(),
    {
        let kb = key.to_hash_bytes();
        let b = self.bucket_index(&kb);
        let ghost old_slots = self.slots();
        proof {
            lemma_total_update(old_slots, b as int, old_slots[b as int].push((key, value)));
        }
        self.buckets[b].push((key, value));
        self.len = self.len + 1;
        assert(self.slots() =~= old_slots.update(b as int, old_slots[b as int].push((key, value))));
        let r = self.buckets[b].len();
        proof {
            if old(self).placed() {
                assert forall|i: int, j: int|
                    0 <= i < self.bucket_count() && 0 <= j < #[trigger] self.slots()[i].len()
                        implies self.index_of(#[trigger] self.slots()[i][j].0.hash_bytes()) == i by {
                    if i != b || j < old_slots[i].len() {
                        assert(self.slots()[i][j] == old_slots[i][j]);
                    }
                }
            }
        }
        r
    }

    /// The value stored under a key with the same representation as `key`,
    /// found in the bucket that `key` is addressed to.
    pub fn get<Q: HashBytes + ?Sized>(&self, key: &Q) -> (r: Option<&V>)
        requires
            self.wf(),
        ensures
            r.is_some() == self.lookup(key.hash_bytes()).is_some(),
            r.is_some() ==> *r.unwrap() == self.lookup(key.hash_bytes()).unwrap(),
    {
        let kb = key.to_hash_bytes();
        let (b, pos) = self.find(&kb);
        match pos {
            Some(j) => {
                proof {
                    lemma_match_pos(self.slots()[b as int], kb@);
                }
                Some(&self.buckets[b][j].1)
            },
            None => None,
        }
    }

    /// A mutable reference to the value stored under a key with the same
    /// representation as `key`; writing through it changes that pair alone.
    pub fn get_mut<Q: HashBytes + ?Sized>(&mut self, key: &Q) -> (r: Option<&mut V>)
        requires
            old(self).wf(),
        ensures
            old(self).lookup(key.hash_bytes()).is_none() ==> r.is_none() && *final(self)
                == *old(self),
            old(self).lookup(key.hash_bytes()).is_some() ==> r.is_some(),
            old(self).lookup(key.hash_bytes()).is_some() ==> *r.unwrap() == old(self).lookup(
                key.hash_bytes(),
            ).unwrap(),
            old(self).lookup(key.hash_bytes()).is_some() ==> final(self).wf(),
            old(self).lookup(key.hash_bytes()).is_some() ==> final(self).seed_spec() == old(
                self,
            ).seed_spec(),
            old(self).lookup(key.hash_bytes()).is_some() ==> {
                let i = old(self).index_of(key.hash_bytes());
                let b = old(self).slots()[i];
                let p = match_pos(b, key.hash_bytes());
                final(self).slots() == old(self).slots().update(
                    i,
                    b.update(p, (b[p].0, *final(r.unwrap()))),
                )
            },
    {
        let kb = key.to_hash_bytes();
        let (b, pos) = self.find(&kb);
        match pos {
            Some(j) => {
                proof {
                    lemma_match_pos(self.slots()[b as int], kb@);
                }
                let ghost old_slots = self.slots();
                let bucket = &mut self.buckets[b];
                let entry = &mut bucket[j];
                let v = &mut entry.1;
                proof {
                    let bs = old_slots[b as int];
                    lemma_total_update(
                        old_slots,
                        b as int,
                        bs.update(j as int, (bs[j as int].0, *final(v))),
                    );
                    assert(after_borrow(self.buckets)@.map_values(|c: Vec<(K, V)>| c@) =~= old_slots.update(
                        b as int,
                        bs.update(j as int, (bs[j as int].0, *final(v))),
                    ));
                }
                Some(v)
            },
            None => None,
        }
    }

    /// Empties bucket `bucket_i` and returns what it held, or `None` if there
    /// is no such bucket.
    pub fn set_bucket(&mut self, bucket_i: usize) -> (r: Option<Vec<(K, V)>>)
        requires
            old(self).wf(),
        ensures
            final(self).wf(),
            final(self).seed_spec() == old(self).seed_spec(),
            bucket_i >= old(self).bucket_count() ==> r.is_none() && *final(self) == *old(self),
            bucket_i < old(self).bucket_count() ==> {
                &&& r.is_some()
                &&& r.unwrap()@ == old(self).slots()[bucket_i as int]
                &&& final(self).slots() == old(self).slots().update(bucket_i as int, seq![])
                &&& final(self).count() == old(self).count() - r.unwrap()@.len()
            },
            old(self).placed() ==> final(self).placed(),
    {
        if bucket_i >= self.buckets.len() {
            return None;
        }
        let ghost old_slots = self.slots();
        proof {
            lemma_total_update(old_slots, bucket_i as int, seq![]);
        }
        let mut result: Vec<(K, V)> = Vec::new();
        std::mem::swap(&mut result, &mut self.buckets[bucket_i]);
        self.len = self.len - result.len();
        assert(self.slots() =~= old_slots.update(bucket_i as int, seq![]));
        proof {
            if old(self).placed() {
                assert forall|i: int, j: int|
                    0 <= i < self.bucket_count() && 0 <= j < #[trigger] self.slots()[i].len()
                        implies self.index_of(#[trigger] self.slots()[i][j].0.hash_bytes()) == i by {
                    assert(self.slots()[i][j] == old_slots[i][j]);
                }
            }
        }
        Some(result)
    }

    /// Appends empty buckets until there are `num`; never removes any.
    pub fn set_buckets(&mut self, num: usize)
        requires
            old(self).wf(),
        ensures
            final(self).wf(),
            final(self).seed_spec() == old(self).seed_spec(),
            final(self).bucket_count() == if num > old(self).bucket_count() {
                num as nat
            } else {
                old(self).bucket_count()
            },
            forall|i: int|
                0 <= i < old(self).bucket_count() ==> #[trigger] final(self).slots()[i]
                    == old(self).slots()[i],
            forall|i: int|
                old(self).bucket_count() <= i < final(self).bucket_count()
                    ==> #[trigger] final(self).slots()[i].len() == 0,
            final(self).count() == old(self).count(),
            old(self).is_empty_spec() ==> final(self).is_empty_spec(),
    {
        let ghost old_slots = self.slots();
        while self.buckets.len() < num
            invariant
                self.wf(),
                self.seed_spec() == old(self).seed_spec(),
                old_slots == old(self).slots(),
                self.bucket_count() >= old_slots.len(),
                num > old_slots.len() ==> self.bucket_count() <= num,
                num <= old_slots.len() ==> self.bucket_count() == old_slots.len(),
                forall|i: int|
                    0 <= i < old_slots.len() ==> #[trigger] self.slots()[i] == old_slots[i],
                forall|i: int|
                    old_slots.len() <= i < self.bucket_count() ==> #[trigger] self.slots()[i].len()
                        == 0,
                self.count() == total(old_slots),
            decreases num - self.buckets@.len(),
        {
            let ghost before = self.slots();
            self.buckets.push(Vec::new());
            assert(self.slots() =~= before.push(seq![]));
            assert(self.slots().drop_last() =~= before);
        }
        proof {
            if old(self).is_empty_spec() {
                assert forall|i: int| 0 <= i < self.bucket_count() implies #[trigger] self.slots()[i].len() == 0 by {
                    if i < old_slots.len() {
                        assert(self.slots()[i] == old_slots[i]);
                    }
                }
            }
        }
    }
}

} // verus!
