//! A stack of `i32` values over an exclusively owned chain of boxed nodes.
//!
//! Each node owns its successor, so the whole chain hangs off a single
//! `head` link. The abstract value of a stack is the sequence of its
//! elements from the top down.

use vstd::prelude::*;

verus! {

pub struct List {
    head: Link,
}

enum Link {
    Empty,
    More(Box<Node>),
}

struct Node {
    elem: i32,
    next: Link,
}

impl Link {
    /// The elements hanging off this link, nearest first.
    spec fn elems(self) -> Seq<i32>
        decreases self,
    {
        match self {
            Link::Empty => Seq::empty(),
            Link::More(node) => seq![node.elem] + node.next.elems(),
        }
    }
}

impl View for List {
    type V = Seq<i32>;

    closed spec fn view(&self) -> Seq<i32> {
        self.head.elems()
    }
}

impl List {
    /// An empty stack.
    pub fn new() -> (l: List)
        ensures
            l@ == Seq::<i32>::empty(),
    {
        List { head: Link::Empty }
    }

    /// Puts `elem` on top of the stack.
    pub fn push(&mut self, elem: i32)
        ensures
            final(self)@ == seq![elem] + old(self)@,
    {
        let mut taken = Link::Empty;
        std::mem::swap(&mut taken, &mut self.head);
        self.head = Link::More(Box::new(Node { elem, next: taken }));
    }

    /// Removes and returns the top element; `None` on an empty stack,
    /// which it leaves untouched.
    pub fn pop(&mut self) -> (r: Option<i32>)
        ensures
            old(self)@.len() == 0 ==> r is None && *final(self) == *old(self),
            old(self)@.len() > 0 ==> r == Some(old(self)@[0]) && final(self)@
                == old(self)@.drop_first(),
    {
        let mut taken = Link::Empty;
        std::mem::swap(&mut taken, &mut self.head);
        match taken {
            Link::Empty => None,
            Link::More(node) => {
                self.head = node.next;
                Some(node.elem)
            }
        }
    }
}

impl Drop for List {
    /// Tears the chain down front to back in a loop, so that a long stack
    /// never unwinds through one nested recursive release per node.
    fn drop(&mut self)
        opens_invariants none
        no_unwind
    {
        let mut cur = Link::Empty;
        std::mem::swap(&mut cur, &mut self.head);
        loop
            decreases cur.elems().len(),
        {
            match cur {
                Link::Empty => {
                    break ;
                }
                Link::More(node) => {
                    cur = node.next;
                }
            }
        }
    }
}

} // verus!
