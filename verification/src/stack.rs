//! A generic stack over an exclusively owned chain of boxed nodes, with
//! peeking at the top element (shared or exclusive) and two iterators: one
//! that consumes the stack and one that borrows it.
//!
//! The abstract value of a stack is the sequence of its elements from the
//! top down.

use vstd::prelude::*;

verus! {

pub struct List<T> {
    head: Option<Box<Node<T>>>,
}

struct Node<T> {
    elem: T,
    next: Option<Box<Node<T>>>,
}

/// The elements hanging off a link, nearest first.
spec fn link_elems<T>(link: Option<Box<Node<T>>>) -> Seq<T>
    decreases link,
{
    match link {
        None => Seq::empty(),
        Some(node) => seq![node.elem] + link_elems(node.next),
    }
}

impl<T> View for List<T> {
    type V = Seq<T>;

    closed spec fn view(&self) -> Seq<T> {
        link_elems(self.head)
    }
}

impl<T> List<T> {
    /// An empty stack.
    pub fn new() -> (l: List<T>)
        ensures
            l@ == Seq::<T>::empty(),
    {
        List { head: None }
    }

    /// Puts `elem` on top of the stack.
    pub fn push(&mut self, elem: T)
        ensures
            final(self)@ == seq![elem] + old(self)@,
    {
        let taken = self.head.take();
        self.head = Some(Box::new(Node { elem, next: taken }));
    }

    /// Removes and returns the top element; `None` on an empty stack,
    /// which it leaves untouched.
    pub fn pop(&mut self) -> (r: Option<T>)
        ensures
            old(self)@.len() == 0 ==> r is None && *final(self) == *old(self),
            old(self)@.len() > 0 ==> r == Some(old(self)@[0]) && final(self)@
                == old(self)@.drop_first(),
    {
        match self.head.take() {
            None => None,
            Some(node) => {
                let node = *node;
                self.head = node.next;
                Some(node.elem)
            }
        }
    }

    /// A shared borrow of the top element; `None` on an empty stack.
    pub fn peek(&self) -> (r: Option<&T>)
        ensures
            self@.len() == 0 ==> r is None,
            self@.len() > 0 ==> r is Some && *r.unwrap() == self@[0],
    {
        match &self.head {
            None => None,
            Some(node) => Some(&node.elem),
        }
    }

    /// An exclusive borrow of the top element; `None` on an empty stack.
    /// Whatever the caller writes through the borrow becomes the new top.
    pub fn peek_mut(&mut self) -> (r: Option<&mut T>)
        ensures
            old(self)@.len() == 0 ==> r is None && *final(self) == *old(self),
            old(self)@.len() > 0 ==> r is Some && *r.unwrap() == old(self)@[0]
                && final(self)@ == old(self)@.update(0, *final(r.unwrap())),
    {
        match &mut self.head {
            None => None,
            Some(node) => Some(&mut node.elem),
        }
    }

    /// Consumes the stack, yielding an iterator over its elements from the
    /// top down.
    pub fn into_iter(self) -> (it: IntoIter<T>)
        ensures
            it@ == self@,
    {
        IntoIter { list: self }
    }

    /// Borrows the stack, yielding an iterator over its elements from the
    /// top down.
    pub fn iter(&self) -> (it: Iter<'_, T>)
        ensures
            it@ == self@,
    {
        match &self.head {
            None => Iter { cursor: None },
            Some(node) => Iter { cursor: Some(&**node) },
        }
    }
}

impl<T> Drop for List<T> {
    /// Tears the chain down front to back in a loop, so that a long stack
    /// never unwinds through one nested recursive release per node.
    fn drop(&mut self)
        opens_invariants none
        no_unwind
    {
        let mut cur = None;
        std::mem::swap(&mut cur, &mut self.head);
        loop
            decreases link_elems(cur).len(),
        {
            match cur {
                None => {
                    break ;
                }
                Some(node) => {
                    let node = *node;
                    cur = node.next;
                }
            }
        }
    }
}

/// An iterator that owns the stack it walks; advancing it pops elements
/// off the top.
pub struct IntoIter<T> {
    list: List<T>,
}

impl<T> View for IntoIter<T> {
    type V = Seq<T>;

    closed spec fn view(&self) -> Seq<T> {
        self.list@
    }
}

impl<T> IntoIter<T> {
    /// The next element from the top, or `None` once the stack is spent.
    pub fn next(&mut self) -> (r: Option<T>)
        ensures
            old(self)@.len() == 0 ==> r is None && *final(self) == *old(self),
            old(self)@.len() > 0 ==> r == Some(old(self)@[0]) && final(self)@
                == old(self)@.drop_first(),
    {
        self.list.pop()
    }
}

/// An iterator over shared borrows of a stack's elements, top down.
pub struct Iter<'a, T> {
    cursor: Option<&'a Node<T>>,
}

impl<'a, T> View for Iter<'a, T> {
    type V = Seq<T>;

    closed spec fn view(&self) -> Seq<T> {
        match self.cursor {
            None => Seq::empty(),
            Some(node) => seq![node.elem] + link_elems(node.next),
        }
    }
}

impl<'a, T> Iter<'a, T> {
    /// A borrow of the next element, or `None` once the walk is done.
    pub fn next(&mut self) -> (r: Option<&'a T>)
        ensures
            old(self)@.len() == 0 ==> r is None && final(self)@ == old(self)@,
            old(self)@.len() > 0 ==> r is Some && *r.unwrap() == old(self)@[0]
                && final(self)@ == old(self)@.drop_first(),
    {
        match self.cursor {
            None => None,
            Some(node) => {
                match &node.next {
                    None => {
                        self.cursor = None;
                    }
                    Some(next_node) => {
                        self.cursor = Some(&**next_node);
                    }
                }
                Some(&node.elem)
            }
        }
    }
}

} // verus!
