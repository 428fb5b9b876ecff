//! Linked-list containers in three ownership styles: an integer stack over an
//! owned chain of boxed nodes, a generic stack with peeking and iteration, and
//! a doubly-linked deque over an arena of slots with runtime-checked borrow
//! claims on its elements.

pub mod int_stack;
pub mod stack;
pub mod deque;
