//! A first-in-first-out queue over a singly linked chain of boxes.
//!
//! The chain is owned from the head; pushing walks to the tail and
//! appends there, popping takes the head off. No tail pointer is kept,
//! so the whole structure stays free of aliasing.

use vstd::prelude::*;

verus! {

type Link<T> = Option<Box<Node<T>>>;

struct Node<T> {
    elem: T,
    next: Link<T>,
}

/// The elements hanging off a link, oldest first.
spec fn link_view<T>(l: Link<T>) -> Seq<T>
    decreases l,
{
    match l {
        Option::None => Seq::empty(),
        Option::Some(n) => seq![n.elem] + link_view(n.next),
    }
}

/// Append `elem` at the end of the chain.
fn push_link<T>(link: Link<T>, elem: T) -> (r: Link<T>)
    ensures
        link_view(r) == link_view(link).push(elem),
    decreases link,
{
    match link {
        None => {
            let r = Some(Box::new(Node { elem, next: None }));
            proof {
                assert(link_view(r) =~= link_view(link).push(elem));
            }
            r
        },
        Some(boxed) => {
            let mut node = *boxed;
            let rest = node.next;
            node.next = push_link(rest, elem);
            let r = Some(Box::new(node));
            proof {
                assert(link_view(r) =~= link_view(link).push(elem));
            }
            r
        },
    }
}

/// A queue: `push` enqueues at the tail, `pop` dequeues at the head.
pub struct List<T> {
    head: Link<T>,
}

impl<T> List<T> {
    /// The elements in arrival order: index 0 is the next to leave.
    pub closed spec fn view(self) -> Seq<T> {
        link_view(self.head)
    }

    pub fn new() -> (l: Self)
        ensures
            l@ == Seq::<T>::empty(),
    {
        List { head: None }
    }

    /// Enqueue `elem` at the tail.
    pub fn push(&mut self, elem: T)
        ensures
            final(self)@ == old(self)@.push(elem),
    {
        let head = self.head.take();
        self.head = push_link(head, elem);
    }

    /// Dequeue the oldest element, if any.
    pub fn pop(&mut self) -> (r: Option<T>)
        ensures
            old(self)@.len() == 0 ==> r is None && final(self)@ == old(self)@,
            old(self)@.len() > 0 ==> r == Some(old(self)@.first()) && final(self)@ == old(
                self,
            )@.drop_first(),
    {
        match self.head.take() {
            None => None,
            Some(head) => {
                let head = *head;
                self.head = head.next;
                proof {
                    assert(self@ =~= old(self)@.drop_first());
                }
                Some(head.elem)
            },
        }
    }
}

} // verus!
