//! A first-in, first-out queue: elements are pushed at the back and popped
//! from the front, both in constant time.
use std::collections::VecDeque;
use vstd::prelude::*;

verus! {

/// A FIFO queue.
pub struct List<T> {
    items: VecDeque<T>,
}

impl<T> View for List<T> {
    type V = Seq<T>;

    /// The elements from the front (next to pop) to the back.
    closed spec fn view(&self) -> Seq<T> {
        self.items@
    }
}

impl<T> List<T> {
    pub fn new() -> (q: Self)
        ensures
            q@ == Seq::<T>::empty(),
    {
        List { items: VecDeque::new() }
    }

    /// Adds `elem` at the back.
    pub fn push(&mut self, elem: T)
        ensures
            final(self)@ == old(self)@.push(elem),
    {
        self.items.push_back(elem);
    }

    /// Removes the front element, the oldest one.
    pub fn pop(&mut self) -> (r: Option<T>)
        ensures
            old(self)@.len() == 0 ==> r.is_none() && final(self)@ == old(self)@,
            old(self)@.len() > 0 ==> r == Some(old(self)@[0]) && final(self)@ == old(self)@.drop_first(),
    {
        let r = self.items.pop_front();
        proof {
            if old(self)@.len() > 0 {
                assert(self@ =~= old(self)@.drop_first());
            }
        }
        r
    }
}

} // verus!
