//! A singly linked list of boxed nodes.

use vstd::prelude::*;

verus! {

/// `v` inserted into `s` before the first element greater than `v` (at the
/// end if there is none): after any elements equal to it.
pub open spec fn insert_sorted(s: Seq<i32>, v: i32) -> Seq<i32>
    decreases s.len(),
{
    if s.len() == 0 {
        seq![v]
    } else if s[0] > v {
        seq![v] + s
    } else {
        seq![s[0]] + insert_sorted(s.drop_first(), v)
    }
}

/// Inserting before an element greater than `v` only touches the front part.
pub proof fn lemma_insert_sorted_before(a: Seq<i32>, b: Seq<i32>, v: i32)
    requires
        b.len() > 0,
        b[0] > v,
    ensures
        insert_sorted(a + b, v) == insert_sorted(a, v) + b,
    decreases a.len(),
{
    if a.len() == 0 {
        assert(a + b =~= b);
        assert(seq![v] + b =~= seq![v] + b);
    } else {
        assert((a + b).drop_first() =~= a.drop_first() + b);
        lemma_insert_sorted_before(a.drop_first(), b, v);
        if a[0] > v {
            assert(seq![v] + (a + b) =~= (seq![v] + a) + b);
        } else {
            assert(seq![a[0]] + (insert_sorted(a.drop_first(), v) + b) =~= (seq![a[0]]
                + insert_sorted(a.drop_first(), v)) + b);
        }
    }
}

/// Inserting after a front part whose elements are all at most `v`.
pub proof fn lemma_insert_sorted_after(a: Seq<i32>, b: Seq<i32>, v: i32)
    requires
        forall|i: int| 0 <= i < a.len() ==> a[i] <= v,
    ensures
        insert_sorted(a + b, v) == a + insert_sorted(b, v),
    decreases a.len(),
{
    if a.len() == 0 {
        assert(a + b =~= b);
        assert(a + insert_sorted(b, v) =~= insert_sorted(b, v));
    } else {
        assert((a + b).drop_first() =~= a.drop_first() + b);
        lemma_insert_sorted_after(a.drop_first(), b, v);
        assert(seq![a[0]] + (a.drop_first() + insert_sorted(b, v)) =~= a + insert_sorted(b, v));
    }
}

/// Every element is below `d`.
pub open spec fn all_lt(s: Seq<i32>, d: i32) -> bool {
    forall|i: int| 0 <= i < s.len() ==> #[trigger] s[i] < d
}

/// Every element is at least `d`.
pub open spec fn all_ge(s: Seq<i32>, d: i32) -> bool {
    forall|i: int| 0 <= i < s.len() ==> #[trigger] s[i] >= d
}

/// A sorted insert keeps a bound that `v` also meets.
pub proof fn lemma_insert_sorted_bounds(s: Seq<i32>, v: i32, d: i32)
    ensures
        all_lt(s, d) && v < d ==> all_lt(insert_sorted(s, v), d),
        all_ge(s, d) && v >= d ==> all_ge(insert_sorted(s, v), d),
    decreases s.len(),
{
    if s.len() > 0 {
        let t = s.drop_first();
        lemma_insert_sorted_bounds(t, v, d);
        if all_lt(s, d) && v < d {
            assert(all_lt(t, d)) by {
                assert forall|i: int| 0 <= i < t.len() implies #[trigger] t[i] < d by {
                    assert(t[i] == s[i + 1]);
                }
            }
            let r = insert_sorted(s, v);
            assert forall|i: int| 0 <= i < r.len() implies #[trigger] r[i] < d by {
                if s[0] <= v && i > 0 {
                    assert(r[i] == insert_sorted(t, v)[i - 1]);
                }
                if s[0] > v && i > 0 {
                    assert(r[i] == s[i - 1]);
                }
            }
        }
        if all_ge(s, d) && v >= d {
            assert(all_ge(t, d)) by {
                assert forall|i: int| 0 <= i < t.len() implies #[trigger] t[i] >= d by {
                    assert(t[i] == s[i + 1]);
                }
            }
            let r = insert_sorted(s, v);
            assert forall|i: int| 0 <= i < r.len() implies #[trigger] r[i] >= d by {
                if s[0] <= v && i > 0 {
                    assert(r[i] == insert_sorted(t, v)[i - 1]);
                }
                if s[0] > v && i > 0 {
                    assert(r[i] == s[i - 1]);
                }
            }
        }
    } else {
        assert(insert_sorted(s, v) =~= seq![v]);
    }
}

/// A list: empty, or a value followed by the rest of the list.
pub struct LinkedList<T>(pub Option<(T, Box<LinkedList<T>>)>);

impl<T> View for LinkedList<T> {
    type V = Seq<T>;

    open spec fn view(&self) -> Seq<T>
        decreases self,
    {
        match self.0 {
            None => Seq::empty(),
            Some((v, next)) => seq![v] + (*next).view(),
        }
    }
}

impl<T: Copy> LinkedList<T> {
    /// An empty list.
    pub fn new() -> (r: Self)
        ensures
            r@ == Seq::<T>::empty(),
    {
        LinkedList(None)
    }

    /// Puts `data` in front.
    pub fn push_front(&mut self, data: T)
        ensures
            final(self)@ == seq![data] + old(self)@,
    {
        let previous = self.0.take();
        self.0 = Some((data, Box::new(LinkedList(previous))));
    }

    /// Appends by walking to the end of the list.
    pub fn push_back_iterative(&mut self, data: T)
        ensures
            final(self)@ == old(self)@.push(data),
    {
        let ghost whole = self@;
        let mut current = self;
        let ghost mut i: int = 0;
        while current.0.is_some()
            invariant
                0 <= i <= whole.len(),
                current@ == whole.skip(i),
                (*final(self))@ == whole.take(i) + (*final(current))@,
            decreases current@.len(),
        {
            let ghost fc = *final(current);
            let ghost cc = *current;
            assert(cc@ == seq![cc.0.unwrap().0] + (*cc.0.unwrap().1)@);
            assert(whole.skip(i)[0] == whole[i]);
            match current.0 {
                Some((_, ref mut child)) => {
                    proof {
                        assert(fc@ == seq![whole[i]] + (*final(child))@);
                        assert((*child)@ == whole.skip(i).drop_first());
                        assert(whole.skip(i).drop_first() =~= whole.skip(i + 1));
                        assert(whole.take(i + 1) =~= whole.take(i).push(whole[i]));
                    }
                    current = child;
                    proof {
                        i = i + 1;
                    }
                },
                None => {},
            }
        }
        assert(whole.skip(i).len() == 0);
        assert(whole.take(i) =~= whole);
        current.push_front(data);
    }

    /// Appends by recursing to the end of the list.
    pub fn push_back_recursive(&mut self, data: T)
        ensures
            final(self)@ == old(self)@.push(data),
        decreases old(self)@.len(),
    {
        match self.0 {
            Some((_, ref mut child)) => {
                child.push_back_recursive(data);
            },
            None => self.push_front(data),
        }
    }

    /// The values, front to back.
    pub fn values(&self) -> (r: Vec<T>)
        ensures
            r@ == self@,
    {
        let mut values: Vec<T> = Vec::new();
        let mut current = self;
        while current.0.is_some()
            invariant
                values@ + current@ == self@,
            decreases current@.len(),
        {
            match &current.0 {
                Some((child_data, child)) => {
                    assert(values@.push(*child_data) + (**child)@ =~= values@ + current@);
                    values.push(*child_data);
                    current = child;
                },
                None => {},
            }
        }
        assert(values@ =~= self@);
        values
    }
}

impl LinkedList<i32> {
    /// Inserts `value` before the first element greater than it.
    pub fn sorted_push_iterative(&mut self, value: i32)
        ensures
            final(self)@ == insert_sorted(old(self)@, value),
    {
        let ghost whole = self@;
        let mut current = self;
        let ghost mut i: int = 0;
        assert(whole.take(0) + whole.skip(0) =~= whole);
        loop
            invariant
                0 <= i <= whole.len(),
                current@ == whole.skip(i),
                insert_sorted(whole, value) == whole.take(i) + insert_sorted(whole.skip(i), value),
                (*final(self))@ == whole.take(i) + (*final(current))@,
            ensures
                current@ == whole.skip(i),
                insert_sorted(whole, value) == whole.take(i) + seq![value] + current@,
                (*final(self))@ == whole.take(i) + (*final(current))@,
            decreases current@.len(),
        {
            let ghost fc = *final(current);
            let ghost cc = *current;
            proof {
                if cc.0.is_some() {
                    assert(cc@ == seq![cc.0.unwrap().0] + (*cc.0.unwrap().1)@);
                    assert(whole.skip(i)[0] == whole[i]);
                    assert(cc@[0] == whole[i]);
                }
            }
            match current.0 {
                Some((current_value, _)) if current_value > value => {
                    assert(whole.skip(i)[0] == current_value);
                    assert(insert_sorted(whole.skip(i), value) == seq![value] + whole.skip(i));
                    break;
                },
                Some((_, ref mut child)) => {
                    proof {
                        assert(fc@ == seq![whole[i]] + (*final(child))@);
                        let rest = whole.skip(i);
                        assert((*child)@ == rest.drop_first());
                        assert(rest.drop_first() =~= whole.skip(i + 1));
                        assert(whole.take(i + 1) =~= whole.take(i).push(whole[i]));
                        assert(whole.take(i) + insert_sorted(rest, value) =~= whole.take(i + 1)
                            + insert_sorted(whole.skip(i + 1), value));
                    }
                    current = child;
                    proof {
                        i = i + 1;
                    }
                },
                None => {
                    assert(insert_sorted(whole.skip(i), value) =~= seq![value] + whole.skip(i));
                    break;
                },
            }
        }
        current.push_front(value);
    }
}

} // verus!
