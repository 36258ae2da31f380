//! Singly linked stack of handles.
//!
//! Optimised for LIFO use: `push_front` and `pop_front` at the head. In the
//! kernel the chain runs through the first word of each free item; here the
//! elements are plain handles held in order, front first.

use vstd::prelude::*;

verus! {

/// A LIFO list of elements, specified by the sequence of its elements.
#[derive(Debug, Clone, PartialEq)]
pub struct SinglyLinkedList<T> {
    items: Vec<T>,
}

impl<T> View for SinglyLinkedList<T> {
    type V = Seq<T>;

    closed spec fn view(&self) -> Seq<T> {
        self.items@
    }
}

impl<T> SinglyLinkedList<T> {
    /// Creates a new, empty list.
    pub fn new() -> (r: Self)
        ensures
            r@ == Seq::<T>::empty(),
    {
        let items = Vec::new();
        proof {
            assert(items@ =~= Seq::<T>::empty());
        }
        SinglyLinkedList { items }
    }

    /// Number of elements in the list.
    pub fn len(&self) -> (r: usize)
        ensures
            r == self@.len(),
    {
        self.items.len()
    }

    /// `true` if the list holds no elements.
    pub fn is_empty(&self) -> (r: bool)
        ensures
            r == (self@.len() == 0),
    {
        self.items.len() == 0
    }

    /// The first element, or `None` if the list is empty.
    pub fn front(&self) -> (r: Option<&T>)
        ensures
            self@.len() == 0 ==> r is None,
            self@.len() > 0 ==> r == Some(&self@[0]),
    {
        if self.items.len() == 0 {
            None
        } else {
            Some(&self.items[0])
        }
    }

    /// Pushes an element onto the head.
    pub fn push_front(&mut self, node: T)
        ensures
            final(self)@ == seq![node].add(old(self)@),
    {
        self.items.insert(0, node);
        proof {
            assert(final(self)@ =~= seq![node].add(old(self)@));
        }
    }

    /// Pops the head element.
    pub fn pop_front(&mut self) -> (r: Option<T>)
        ensures
            old(self)@.len() == 0 ==> r is None && final(self)@ == old(self)@,
            old(self)@.len() > 0 ==> r == Some(old(self)@[0])
                && final(self)@ == old(self)@.drop_first(),
    {
        if self.items.len() == 0 {
            None
        } else {
            let node = self.items.remove(0);
            proof {
                assert(final(self)@ =~= old(self)@.drop_first());
            }
            Some(node)
        }
    }

    /// Detaches the first `amount` elements (all of them if `amount` is at
    /// least the length) and yields them front first.
    pub fn drain(&mut self, amount: usize) -> (r: IntoIter<T>)
        ensures
            amount >= old(self)@.len() ==> final(self)@.len() == 0
                && r.remaining@ == old(self)@,
            amount < old(self)@.len() ==> final(self)@ == old(self)@.skip(amount as int)
                && r.remaining@ == old(self)@.take(amount as int),
    {
        if amount >= self.items.len() {
            let mut taken = Vec::new();
            core::mem::swap(&mut taken, &mut self.items);
            proof {
                assert(final(self)@ =~= Seq::<T>::empty());
            }
            IntoIter { remaining: SinglyLinkedList { items: taken } }
        } else {
            let rest = self.items.split_off(amount);
            let mut taken = rest;
            core::mem::swap(&mut taken, &mut self.items);
            proof {
                assert(final(self)@ =~= old(self)@.skip(amount as int));
                assert(taken@ =~= old(self)@.take(amount as int));
            }
            IntoIter { remaining: SinglyLinkedList { items: taken } }
        }
    }

    /// Drops every element.
    pub fn clear(&mut self)
        ensures
            final(self)@.len() == 0,
    {
        self.items.clear();
    }
}

/// Owning iterator over a detached [`SinglyLinkedList`].
#[derive(Debug)]
pub struct IntoIter<T> {
    pub remaining: SinglyLinkedList<T>,
}

impl<T> IntoIter<T> {
    /// The next element, front first.
    pub fn next(&mut self) -> (r: Option<T>)
        ensures
            old(self).remaining@.len() == 0 ==> r is None
                && final(self).remaining@ == old(self).remaining@,
            old(self).remaining@.len() > 0 ==> r == Some(old(self).remaining@[0])
                && final(self).remaining@ == old(self).remaining@.drop_first(),
    {
        self.remaining.pop_front()
    }
}

} // verus!
