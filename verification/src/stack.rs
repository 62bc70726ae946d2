//! A stack over a singly linked chain of boxes.
//!
//! A stack has no cycles, unlike doubly linked lists or graphs, so
//! plain owned boxes are enough: no reference counting, no handles.

use vstd::prelude::*;

verus! {

pub type Link<T> = Option<Box<Node<T>>>;

/// Node of the singly linked chain underneath the stack.
pub struct Node<T> {
    pub data: T,
    pub next: Link<T>,
}

/// The elements hanging off a link, top first.
pub open spec fn link_view<T>(l: Link<T>) -> Seq<T>
    decreases l,
{
    match l {
        Option::None => Seq::empty(),
        Option::Some(n) => seq![n.data] + link_view(n.next),
    }
}

/// A last-in-first-out stack; `size` always counts the elements.
pub struct Stack<T> {
    pub size: i32,
    pub head: Link<T>,
}

impl<T> Stack<T> {
    /// The elements from top to bottom.
    pub open spec fn view(self) -> Seq<T> {
        link_view(self.head)
    }

    /// The size counter agrees with the chain.
    pub open spec fn wf(self) -> bool {
        self.size == self@.len()
    }

    pub fn new() -> (s: Self)
        ensures
            s.wf(),
            s@ == Seq::<T>::empty(),
    {
        Stack { size: 0, head: None }
    }

    /// Push `data` on top of the stack.
    pub fn push(&mut self, data: T)
        requires
            old(self).wf(),
            old(self)@.len() < i32::MAX,
        ensures
            final(self).wf(),
            final(self)@ == seq![data] + old(self)@,
    {
        let new_head = Some(Box::new(Node { data, next: self.head.take() }));
        self.head = new_head;
        self.size = self.size + 1;
    }

    /// Pop the top element, if any.
    pub fn pop(&mut self) -> (r: Option<T>)
        requires
            old(self).wf(),
        ensures
            final(self).wf(),
            old(self)@.len() == 0 ==> r is None && final(self)@ == old(self)@,
            old(self)@.len() > 0 ==> r == Some(old(self)@.first()) && final(self)@ == old(
                self,
            )@.drop_first(),
    {
        match self.head.take() {
            None => None,
            Some(old_head) => {
                let old_head = *old_head;
                self.head = old_head.next;
                self.size = self.size - 1;
                proof {
                    assert(self@ =~= old(self)@.drop_first());
                }
                Some(old_head.data)
            },
        }
    }

    /// Walk the chain from the top without touching it.
    pub fn print(&self) {
        let mut counter = &self.head;
        loop
            decreases link_view(*counter).len(),
        {
            match counter {
                Some(n) => {
                    counter = &n.next;
                },
                None => {
                    break ;
                },
            }
        }
    }
}

/// Walk a chain recursively: an empty link ends the walk, otherwise
/// continue with the child.
fn print_stack_node<T>(n: &Link<T>)
    decreases *n,
{
    match n {
        Some(node) => {
            print_stack_node(&node.next);
        },
        None => {},
    }
}

/// Walk a stack recursively from the top.
pub fn print_stack_recur<T>(s: &Stack<T>) {
    print_stack_node(&s.head);
}

/// Walk a stack iteratively from the top.
pub fn print_stack<T>(s: &Stack<T>) {
    let mut counter = &s.head;
    loop
        decreases link_view(*counter).len(),
    {
        match counter {
            Some(node) => {
                counter = &node.next;
            },
            None => {
                break ;
            },
        }
    }
}

} // verus!
