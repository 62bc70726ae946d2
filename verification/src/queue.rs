//! A queue implemented with two stacks.
//!
//! To enqueue, push onto the first stack. To dequeue, pop from the
//! second stack, first reversing the whole first stack onto the second
//! when the second runs dry. Every operation is amortized O(1), with an
//! occasional linear reversal step.

use vstd::prelude::*;

verus! {

/// A first-in-first-out queue backed by two last-in-first-out stacks.
pub struct Queue<T> {
    stack1: Vec<T>,
    stack2: Vec<T>,
}

impl<T> Queue<T> {
    /// The elements in arrival order: index 0 is the next to leave.
    pub closed spec fn view(self) -> Seq<T> {
        self.stack2@.reverse() + self.stack1@
    }

    pub fn new() -> (q: Self)
        ensures
            q@ == Seq::<T>::empty(),
    {
        let q = Queue { stack1: vec![], stack2: vec![] };
        proof {
            assert(q@ =~= Seq::<T>::empty());
        }
        q
    }

    pub fn enqueue(&mut self, data: T)
        ensures
            final(self)@ == old(self)@.push(data),
    {
        self.stack1.push(data);
        proof {
            assert(self@ =~= old(self)@.push(data));
        }
    }

    pub fn dequeue(&mut self) -> (r: Option<T>)
        ensures
            old(self)@.len() == 0 ==> r is None && final(self)@ == old(self)@,
            old(self)@.len() > 0 ==> r == Some(old(self)@.first()) && final(self)@ == old(
                self,
            )@.drop_first(),
    {
        if self.stack2.len() == 0 {
            if self.stack1.len() == 0 {
                return None;
            }

            // Reverse stack1 onto stack2: the elements still in stack1 are
            // older than everything already moved to stack2.
            while self.stack1.len() > 0
                invariant
                    self.stack1@ + self.stack2@.reverse() == old(self)@,
                    old(self)@.len() > 0,
                decreases self.stack1.len(),
            {
                let x = self.stack1.pop().unwrap();
                self.stack2.push(x);
                proof {
                    assert(self.stack1@ + self.stack2@.reverse() =~= old(self)@);
                }
            }
            proof {
                assert(self.stack2@.reverse() =~= old(self)@);
                assert(self@ =~= old(self)@);
            }
        }
        let ghost pre_q = self@;
        let ghost pre_s2 = self.stack2@;
        let r = self.stack2.pop();
        proof {
            assert(pre_q == old(self)@);
            assert(pre_s2.len() > 0);
            assert(pre_q.first() == pre_s2.reverse()[0]);
            assert(r == Some(pre_s2.last()));
            assert(self.stack2@.reverse() =~= pre_s2.reverse().drop_first());
            assert(self@ =~= pre_q.drop_first());
        }
        r
    }
}

} // verus!
