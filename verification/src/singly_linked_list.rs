//! A singly linked list of integers with O(1) insertion and removal at the
//! front.
//!
//! The abstract model of the list is the sequence of its values, front
//! first. Each node carries one value and owns the rest of the chain.

use vstd::prelude::*;

verus! {

pub struct SinglyLinkedListNode {
    value: i32,
    next: Option<Box<SinglyLinkedListNode>>,
}

/// The sequence of values reachable from an optional chain link, front
/// first.
pub closed spec fn chain_view(link: Option<Box<SinglyLinkedListNode>>) -> Seq<i32>
    decreases link,
{
    match link {
        None => Seq::empty(),
        Some(node) => seq![node.value] + chain_view(node.next),
    }
}

impl View for SinglyLinkedListNode {
    type V = Seq<i32>;

    closed spec fn view(&self) -> Seq<i32> {
        seq![self.value] + chain_view(self.next)
    }
}

impl SinglyLinkedListNode {
    /// Returns a node holding `value` followed by the chain `next`.
    pub fn new(value: i32, next: Option<Box<SinglyLinkedListNode>>) -> (node: Self)
        ensures
            node@ == seq![value] + chain_view(next),
    {
        SinglyLinkedListNode { value, next }
    }
}

pub struct SinglyLinkedList {
    head: Option<Box<SinglyLinkedListNode>>,
    counter: usize,
}

impl View for SinglyLinkedList {
    type V = Seq<i32>;

    closed spec fn view(&self) -> Seq<i32> {
        chain_view(self.head)
    }
}

impl SinglyLinkedList {
    /// The stored element count agrees with the length of the chain.
    pub closed spec fn well_formed(&self) -> bool {
        self.counter == self@.len()
    }

    /// Returns an empty list.
    pub fn new() -> (l: Self)
        ensures
            l.well_formed(),
            l@ == Seq::<i32>::empty(),
    {
        SinglyLinkedList { head: Option::None, counter: 0 }
    }

    /// Returns the number of elements in the list.
    pub fn len(&self) -> (n: usize)
        requires
            self.well_formed(),
        ensures
            n == self@.len(),
    {
        self.counter
    }

    /// Returns `true` iff the list holds no elements.
    pub fn is_empty(&self) -> (r: bool)
        requires
            self.well_formed(),
        ensures
            r == (self@.len() == 0),
    {
        self.counter == 0
    }

    /// Returns a reference to the first value without removing it, or
    /// `None` if the list is empty.
    pub fn peek_front(&self) -> (r: Option<&i32>)
        ensures
            self@.len() == 0 ==> r is None,
            self@.len() > 0 ==> (r matches Some(x) && *x == self@[0]),
    {
        match &self.head {
            None => None,
            Some(node) => Some(&node.value),
        }
    }

    /// Inserts `value` at the front of the list.
    pub fn push_front(&mut self, value: i32)
        requires
            old(self).well_formed(),
            old(self)@.len() < usize::MAX,
        ensures
            final(self).well_formed(),
            final(self)@ == seq![value] + old(self)@,
    {
        let old_head = self.head.take();
        let node = SinglyLinkedListNode::new(value, old_head);

        self.head = Some(Box::new(node));
        self.counter = self.counter + 1;
    }

    /// Removes and returns the first value, or `None` if the list is empty.
    pub fn pop_front(&mut self) -> (r: Option<i32>)
        requires
            old(self).well_formed(),
        ensures
            final(self).well_formed(),
            old(self)@.len() == 0 ==> r is None && final(self)@ == old(self)@,
            old(self)@.len() > 0 ==> r == Some(old(self)@[0]) && final(self)@ == old(
                self,
            )@.drop_first(),
    {
        match self.head.take() {
            None => None,
            Some(mut node) => {
                self.head = node.next.take();
                self.counter = self.counter - 1;
                Some(node.value)
            },
        }
    }

    /// Removes every element from the list.
    pub fn clear(&mut self)
        ensures
            final(self).well_formed(),
            final(self)@ == Seq::<i32>::empty(),
    {
        self.head = None;
        self.counter = 0;
    }
}

} // verus!
