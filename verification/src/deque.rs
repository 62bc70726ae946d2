//! A double-ended queue.
//!
//! The elements sit in one owned, contiguous buffer, front first. That
//! trades the O(1) front operations of a doubly linked representation
//! for one with no back-links at all: ownership flows in a single
//! direction and every position is a plain index.

use vstd::prelude::*;

verus! {

/// A deque: push and pop at either end.
pub struct Deque<T> {
    items: Vec<T>,
}

impl<T> Deque<T> {
    /// The elements from front to back.
    pub closed spec fn view(self) -> Seq<T> {
        self.items@
    }

    pub fn new() -> (d: Self)
        ensures
            d@ == Seq::<T>::empty(),
    {
        Deque { items: Vec::new() }
    }

    /// Insert `data` as the new front element.
    pub fn push_front(&mut self, data: T)
        ensures
            final(self)@ == seq![data] + old(self)@,
    {
        self.items.insert(0, data);
        proof {
            assert(self@ =~= seq![data] + old(self)@);
        }
    }

    /// Insert `data` as the new back element.
    pub fn push_back(&mut self, data: T)
        ensures
            final(self)@ == old(self)@.push(data),
    {
        self.items.push(data);
    }

    /// Remove and return the front element, if any.
    pub fn pop_front(&mut self) -> (r: Option<T>)
        ensures
            old(self)@.len() == 0 ==> r is None && final(self)@ == old(self)@,
            old(self)@.len() > 0 ==> r == Some(old(self)@.first()) && final(self)@ == old(
                self,
            )@.drop_first(),
    {
        if self.items.len() == 0 {
            None
        } else {
            let x = self.items.remove(0);
            proof {
                assert(self@ =~= old(self)@.drop_first());
            }
            Some(x)
        }
    }

    /// Remove and return the back element, if any.
    pub fn pop_back(&mut self) -> (r: Option<T>)
        ensures
            old(self)@.len() == 0 ==> r is None && final(self)@ == old(self)@,
            old(self)@.len() > 0 ==> r == Some(old(self)@.last()) && final(self)@ == old(
                self,
            )@.drop_last(),
    {
        self.items.pop()
    }

    /// Whether the deque holds no elements.
    pub fn is_empty(&self) -> (r: bool)
        ensures
            r == (self@.len() == 0),
    {
        self.items.len() == 0
    }
}

} // verus!
