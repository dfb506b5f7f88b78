//! Sorting integers: bubble sort, two merge sorts and quicksort.

use rand::Rng;
use vstd::prelude::*;
use crate::linked_list::{all_ge, all_lt};
use vstd::seq_lib::{
    group_to_multiset_ensures, lemma_multiset_commutative, to_multiset_build, to_multiset_contains,
    to_multiset_remove,
};
use vstd::multiset::group_multiset_axioms;

verus! {

pub open spec fn sorted(s: Seq<i32>) -> bool {
    forall|i: int, j: int| 0 <= i <= j < s.len() ==> s[i] <= s[j]
}

/// `s` with the elements at `i` and `j` exchanged.
pub open spec fn swapped(s: Seq<i32>, i: int, j: int) -> Seq<i32> {
    s.update(i, s[j]).update(j, s[i])
}

pub proof fn lemma_swap_multiset(s: Seq<i32>, i: int, j: int)
    requires
        0 <= i < s.len(),
        0 <= j < s.len(),
    ensures
        swapped(s, i, j).to_multiset() == s.to_multiset(),
{
    broadcast use group_to_multiset_ensures, group_multiset_axioms;

    let t = s.update(i, s[j]);
    assert(t[j] == if i == j { s[j] } else { s[j] });
    assert(swapped(s, i, j).to_multiset() =~= s.to_multiset());
}

fn swap(collection: &mut [i32], i: usize, j: usize)
    requires
        i < old(collection)@.len(),
        j < old(collection)@.len(),
    ensures
        final(collection)@ == swapped(old(collection)@, i as int, j as int),
        final(collection)@.to_multiset() == old(collection)@.to_multiset(),
{
    proof {
        lemma_swap_multiset(collection@, i as int, j as int);
    }
    let a = collection[i];
    let b = collection[j];
    collection[i] = b;
    collection[j] = a;
}

/// Sorts by passes that carry the largest remaining element to the end of
/// the unsorted part; stops after a pass without swaps.
pub fn bubble_sort(collection: &mut [i32])
    ensures
        sorted(final(collection)@),
        final(collection)@.to_multiset() == old(collection)@.to_multiset(),
{
    let n = collection.len();
    let mut start: usize = 0;
    while start < n
        invariant
            n == collection@.len(),
            start <= n,
            collection@.to_multiset() == old(collection)@.to_multiset(),
            // the last `start` elements are the largest, in order
            forall|i: int, j: int| n - start <= i <= j < n ==> collection@[i] <= collection@[j],
            forall|i: int, j: int| 0 <= i < n - start <= j < n ==> collection@[i] <= collection@[j],
        decreases n - start,
    {
        let mut sorted_pass = true;
        let end = n - 1 - start;
        let mut i: usize = 0;
        while i < end
            invariant
                n == collection@.len(),
                start < n,
                end == n - 1 - start,
                i <= end,
                collection@.to_multiset() == old(collection)@.to_multiset(),
                forall|a: int, b: int| n - start <= a <= b < n ==> collection@[a] <= collection@[b],
                forall|a: int, b: int|
                    0 <= a < n - start <= b < n ==> collection@[a] <= collection@[b],
                forall|a: int| 0 <= a <= i ==> collection@[a] <= collection@[i as int],
                sorted_pass ==> forall|a: int, b: int| 0 <= a <= b <= i ==> collection@[a]
                    <= collection@[b],
            decreases end - i,
        {
            if collection[i] > collection[i + 1] {
                swap(collection, i, i + 1);
                sorted_pass = false;
            }
            i = i + 1;
        }
        if sorted_pass {
            return;
        }
        start = start + 1;
    }
}

/// Merges two sorted sequences into one.
fn merge(a: Vec<i32>, b: Vec<i32>) -> (r: Vec<i32>)
    requires
        sorted(a@),
        sorted(b@),
    ensures
        sorted(r@),
        r@.to_multiset() == a@.to_multiset().add(b@.to_multiset()),
{
    broadcast use group_to_multiset_ensures, group_multiset_axioms;

    let mut r: Vec<i32> = Vec::new();
    let mut i: usize = 0;
    let mut j: usize = 0;
    assert(a@.skip(0) =~= a@);
    assert(b@.skip(0) =~= b@);
    while i < a.len() || j < b.len()
        invariant
            i <= a@.len(),
            j <= b@.len(),
            sorted(a@),
            sorted(b@),
            sorted(r@),
            r@.to_multiset().add(a@.skip(i as int).to_multiset()).add(b@.skip(j as int).to_multiset())
                == a@.to_multiset().add(b@.to_multiset()),
            r@.len() > 0 && i < a@.len() ==> r@.last() <= a@[i as int],
            r@.len() > 0 && j < b@.len() ==> r@.last() <= b@[j as int],
        decreases a@.len() - i + b@.len() - j,
    {
        let ghost r0 = r@;
        let ghost sa = a@.skip(i as int);
        let ghost sb = b@.skip(j as int);
        let take_a = j >= b.len() || (i < a.len() && a[i] < b[j]);
        if take_a {
            let x = a[i];
            proof {
                let s = a@.skip(i as int);
                assert(s.remove(0) =~= a@.skip(i + 1));
                assert(s[0] == x);
                assert(s.contains(x));
                to_multiset_remove(s, 0);
                to_multiset_contains(s, x);
                assert(a@.skip(i + 1).to_multiset() == s.to_multiset().remove(x));
                assert(s.to_multiset().count(x) > 0);
            }
            r.push(x);
            i = i + 1;
            proof {
                to_multiset_build(r0, x);
                assert(r@.to_multiset().add(a@.skip(i as int).to_multiset()) =~= r0.to_multiset().add(
                    sa.to_multiset(),
                ));
            }
        } else {
            let x = b[j];
            proof {
                let s = b@.skip(j as int);
                assert(s.remove(0) =~= b@.skip(j + 1));
                assert(s[0] == x);
                assert(s.contains(x));
                to_multiset_remove(s, 0);
                to_multiset_contains(s, x);
                assert(b@.skip(j + 1).to_multiset() == s.to_multiset().remove(x));
                assert(s.to_multiset().count(x) > 0);
            }
            r.push(x);
            j = j + 1;
            proof {
                to_multiset_build(r0, x);
                assert(r@.to_multiset().add(b@.skip(j as int).to_multiset()) =~= r0.to_multiset().add(
                    sb.to_multiset(),
                ));
            }
        }
        assert(r@.to_multiset().add(a@.skip(i as int).to_multiset()).add(
            b@.skip(j as int).to_multiset(),
        ) =~= a@.to_multiset().add(b@.to_multiset()));
    }
    assert(a@.skip(i as int) =~= Seq::<i32>::empty());
    assert(b@.skip(j as int) =~= Seq::<i32>::empty());
    assert(r@.to_multiset() =~= a@.to_multiset().add(b@.to_multiset()));
    r
}

/// Sorts a copy of a non-empty slice by splitting it in halves, sorting
/// each, and merging them.
pub fn merge_sort_improved(collection: &[i32]) -> (r: Vec<i32>)
    requires
        collection@.len() >= 1,
    ensures
        sorted(r@),
        r@.to_multiset() == collection@.to_multiset(),
    decreases collection@.len(),
{
    broadcast use group_to_multiset_ensures;

    if collection.len() == 1 {
        let r = vstd::slice::slice_to_vec(collection);
        assert(sorted(r@));
        return r;
    }
    let (collection_1, collection_2) = collection.split_at(collection.len() / 2);
    let collection_1 = merge_sort_improved(collection_1);
    let collection_2 = merge_sort_improved(collection_2);
    proof {
        let mid = (collection@.len() / 2) as int;
        let front = collection@.subrange(0, mid);
        let back = collection@.subrange(mid, collection@.len() as int);
        assert(collection@ =~= front + back);
        lemma_multiset_commutative(front, back);
    }
    merge(collection_1, collection_2)
}

/// Sorts a vector by splitting off its second half, sorting both halves and
/// merging them.
pub fn source_merge_sort(v: Vec<i32>) -> (r: Vec<i32>)
    ensures
        sorted(r@),
        r@.to_multiset() == v@.to_multiset(),
    decreases v@.len(),
{
    if v.len() <= 1 {
        return v;
    }
    let mut v = v;
    let ghost whole = v@;
    let b = v.split_off(v.len() / 2);
    proof {
        assert(whole =~= v@ + b@);
        lemma_multiset_commutative(v@, b@);
    }
    let a = source_merge_sort(v);
    let b = source_merge_sort(b);
    merge(a, b)
}

/// Relies on rand::Rng::gen_range on the thread-local generator, which
/// returns a value of the half-open range and panics only on an empty one.
#[verifier::external_body]
fn random_index(n: usize) -> (r: usize)
    requires
        n > 0,
    ensures
        r < n,
{
    rand::thread_rng().gen_range(0..n)
}

/// Reordering keeps bounds that hold of every element.
pub proof fn lemma_bounds_permutation(a: Seq<i32>, b: Seq<i32>, v: i32)
    requires
        a.to_multiset() == b.to_multiset(),
    ensures
        all_lt(a, v) ==> all_lt(b, v),
        all_ge(a, v) ==> all_ge(b, v),
{
    assert forall|i: int| 0 <= i < b.len() implies a.contains(#[trigger] b[i]) by {
        to_multiset_contains(b, b[i]);
        to_multiset_contains(a, b[i]);
        assert(b.contains(b[i]));
    }
}

/// Moves a randomly chosen element to the position it has in sorted order:
/// the elements before it are smaller, the ones after it at least as large.
/// Returns that position.
pub fn pivot(collection: &mut [i32]) -> (p: usize)
    requires
        old(collection)@.len() > 0,
    ensures
        final(collection)@.len() == old(collection)@.len(),
        p < final(collection)@.len(),
        final(collection)@.to_multiset() == old(collection)@.to_multiset(),
        forall|i: int| 0 <= i < p ==> final(collection)@[i] < final(collection)@[p as int],
        forall|i: int|
            p < i < final(collection)@.len() ==> final(collection)@[i] >= final(collection)@[p as int],
{
    let n = collection.len();
    let r = random_index(n);
    swap(collection, r, 0);
    let mut p: usize = 0;
    let mut i: usize = 1;
    while i < n
        invariant
            n == collection@.len(),
            p < i <= n,
            collection@.to_multiset() == old(collection)@.to_multiset(),
            forall|k: int| 0 <= k < p ==> collection@[k] < collection@[p as int],
            forall|k: int| p < k < i ==> collection@[k] >= collection@[p as int],
        decreases n - i,
    {
        if collection[i] < collection[p] {
            swap(collection, p + 1, i);
            swap(collection, p, p + 1);
            p = p + 1;
        }
        i = i + 1;
    }
    p
}

/// Sorts in place: partitions around a random pivot, then sorts the parts
/// on either side of it.
pub fn quicksort(collection: &mut [i32])
    ensures
        sorted(final(collection)@),
        final(collection)@.to_multiset() == old(collection)@.to_multiset(),
    decreases old(collection)@.len(),
{
    broadcast use group_to_multiset_ensures, group_multiset_axioms;

    if collection.len() <= 1 {
        return;
    }
    let p = pivot(collection);
    let ghost s = collection@;
    let ghost v = s[p as int];
    let ghost left = s.subrange(0, p as int);
    let ghost right = s.subrange(p + 1, s.len() as int);
    proof {
        assert(s =~= left + seq![v] + right);
        assert(all_lt(left, v));
        assert(all_ge(right, v));
    }
    let (collection_1, collection_2) = collection.split_at_mut(p);
    assert(collection_1@.len() < old(collection)@.len());
    assert(collection_1@ =~= left);
    quicksort(collection_1);
    let (head, rest) = collection_2.split_at_mut(1);
    assert(rest@.len() < old(collection)@.len());
    assert(rest@ =~= right);
    quicksort(rest);
    proof {
        assert(head@ == seq![v]);
        lemma_bounds_permutation(left, collection_1@, v);
        lemma_bounds_permutation(right, rest@, v);
        assert(s =~= left + (seq![v] + right));
        lemma_multiset_commutative(left, seq![v] + right);
        lemma_multiset_commutative(seq![v], right);
        lemma_multiset_commutative(collection_1@, head@ + rest@);
        lemma_multiset_commutative(head@, rest@);
        assert((collection_1@ + (head@ + rest@)).to_multiset() =~= s.to_multiset());
    }
}

/// The parameters and state of a linear congruential generator: each step
/// computes `(current * multiplier + increment) % modulo`.
pub struct RandGen {
    pub current: usize,
    pub multiplier: usize,
    pub increment: usize,
    pub modulo: usize,
}

} // verus!
