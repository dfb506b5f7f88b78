//! A list with both ends at hand: values can be added and taken at the
//! front and at the back.

use std::collections::VecDeque;
use vstd::prelude::*;

verus! {

/// A double-ended list of values.
pub struct LinkedList<T: Copy> {
    items: VecDeque<T>,
}

impl<T: Copy> View for LinkedList<T> {
    type V = Seq<T>;

    /// The values, front to back.
    closed spec fn view(&self) -> Seq<T> {
        self.items@
    }
}

impl<T: Copy> LinkedList<T> {
    /// An empty list.
    pub fn new() -> (r: Self)
        ensures
            r@ == Seq::<T>::empty(),
    {
        LinkedList { items: VecDeque::new() }
    }

    /// Puts `value` in front.
    pub fn push_front(&mut self, value: T)
        ensures
            final(self)@ == seq![value] + old(self)@,
    {
        self.items.push_front(value);
    }

    /// Puts `value` at the back.
    pub fn push_back(&mut self, value: T)
        ensures
            final(self)@ == old(self)@.push(value),
    {
        self.items.push_back(value);
    }

    /// Takes the front value, if any.
    pub fn pop_front(&mut self) -> (r: Option<T>)
        ensures
            old(self)@.len() == 0 ==> r.is_none() && final(self)@ == old(self)@,
            old(self)@.len() > 0 ==> r == Some(old(self)@[0]) && final(self)@ == old(self)@.drop_first(),
    {
        self.items.pop_front()
    }

    /// Takes the back value, if any.
    pub fn pop_back(&mut self) -> (r: Option<T>)
        ensures
            old(self)@.len() == 0 ==> r.is_none() && final(self)@ == old(self)@,
            old(self)@.len() > 0 ==> r == Some(old(self)@.last()) && final(self)@ == old(self)@.drop_last(),
    {
        self.items.pop_back()
    }

    /// The back value, if any.
    pub fn back(&self) -> (r: Option<T>)
        ensures
            self@.len() == 0 ==> r.is_none(),
            self@.len() > 0 ==> r == Some(self@.last()),
    {
        let n = self.items.len();
        if n == 0 {
            None
        } else {
            Some(self.items[n - 1])
        }
    }

    /// The values, front to back.
    pub fn values(&self) -> (r: Vec<T>)
        ensures
            r@ == self@,
    {
        let mut values: Vec<T> = Vec::new();
        let mut i: usize = 0;
        while i < self.items.len()
            invariant
                i <= self.items@.len(),
                values@ == self.items@.take(i as int),
            decreases self.items@.len() - i,
        {
            values.push(self.items[i]);
            assert(self.items@.take(i + 1) =~= self.items@.take(i as int).push(self.items@[i as int]));
            i = i + 1;
        }
        assert(self.items@.take(i as int) =~= self.items@);
        values
    }
}

} // verus!
