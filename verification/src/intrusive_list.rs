//! Doubly-ended list of nodes with a mutating cursor.
//!
//! The kernel threads this list through link fields stored inside the
//! tracked objects themselves; here the elements are plain handles (such as
//! frame indices) held in order, and the list is specified by the sequence
//! of its elements, front first. A [`CursorMut`] takes the list over,
//! navigates and edits it, and hands it back.

use vstd::prelude::*;

verus! {

/// A list of elements with O(1) access to both ends and a cursor.
#[derive(Debug, Clone, PartialEq)]
pub struct IntrusiveList<T> {
    items: Vec<T>,
}

impl<T> View for IntrusiveList<T> {
    type V = Seq<T>;

    closed spec fn view(&self) -> Seq<T> {
        self.items@
    }
}

impl<T> IntrusiveList<T> {
    /// Creates a new, empty list.
    pub fn new() -> (r: Self)
        ensures
            r@ == Seq::<T>::empty(),
    {
        let items = Vec::new();
        proof {
            assert(items@ =~= Seq::<T>::empty());
        }
        IntrusiveList { items }
    }

    /// Number of elements in the list.
    pub fn len(&self) -> (r: usize)
        ensures
            r == self@.len(),
    {
        self.items.len()
    }

    /// `true` if the list holds no elements.
    pub fn is_empty(&self) -> (r: bool)
        ensures
            r == (self@.len() == 0),
    {
        self.items.len() == 0
    }

    /// The first element, or `None` if the list is empty.
    pub fn front(&self) -> (r: Option<&T>)
        ensures
            self@.len() == 0 ==> r is None,
            self@.len() > 0 ==> r == Some(&self@[0]),
    {
        if self.items.len() == 0 {
            None
        } else {
            Some(&self.items[0])
        }
    }

    /// The last element, or `None` if the list is empty.
    pub fn back(&self) -> (r: Option<&T>)
        ensures
            self@.len() == 0 ==> r is None,
            self@.len() > 0 ==> r == Some(&self@.last()),
    {
        if self.items.len() == 0 {
            None
        } else {
            Some(&self.items[self.items.len() - 1])
        }
    }

    /// The element at position `i`, front first.
    pub fn get(&self, i: usize) -> (r: &T)
        requires
            i < self@.len(),
        ensures
            *r == self@[i as int],
    {
        &self.items[i]
    }

    /// Adds an element at the front.
    pub fn push_front(&mut self, node: T)
        ensures
            final(self)@ == seq![node].add(old(self)@),
    {
        self.items.insert(0, node);
        proof {
            assert(final(self)@ =~= seq![node].add(old(self)@));
        }
    }

    /// Adds an element at the back.
    pub fn push_back(&mut self, node: T)
        ensures
            final(self)@ == old(self)@.push(node),
    {
        self.items.push(node);
    }

    /// Removes and returns the first element.
    pub fn pop_front(&mut self) -> (r: Option<T>)
        ensures
            old(self)@.len() == 0 ==> r is None && final(self)@ == old(self)@,
            old(self)@.len() > 0 ==> r == Some(old(self)@[0])
                && final(self)@ == old(self)@.drop_first(),
    {
        if self.items.len() == 0 {
            None
        } else {
            let node = self.items.remove(0);
            proof {
                assert(final(self)@ =~= old(self)@.drop_first());
            }
            Some(node)
        }
    }

    /// Removes and returns the last element.
    pub fn pop_back(&mut self) -> (r: Option<T>)
        ensures
            old(self)@.len() == 0 ==> r is None && final(self)@ == old(self)@,
            old(self)@.len() > 0 ==> r == Some(old(self)@.last())
                && final(self)@ == old(self)@.drop_last(),
    {
        self.items.pop()
    }

    /// Splices out the element at position `i` without walking the rest.
    pub fn remove_at(&mut self, i: usize) -> (r: T)
        requires
            i < old(self)@.len(),
        ensures
            r == old(self)@[i as int],
            final(self)@ == old(self)@.remove(i as int),
    {
        self.items.remove(i)
    }

    /// Hands the list to a cursor positioned at the front.
    pub fn cursor_mut(self) -> (r: CursorMut<T>)
        ensures
            r.list@ == self@,
            r.index == 0,
    {
        CursorMut { list: self, index: 0 }
    }
}

/// A cursor with mutable access to an [`IntrusiveList`].
///
/// The cursor owns the list while it navigates; `index == list.len()`
/// is the dangling position past the last element. [`CursorMut::into_list`]
/// returns the edited list.
#[derive(Debug)]
pub struct CursorMut<T> {
    pub list: IntrusiveList<T>,
    pub index: usize,
}

impl<T> CursorMut<T> {
    /// The element under the cursor, or `None` if the cursor is dangling.
    pub fn current(&self) -> (r: Option<&T>)
        requires
            self.index <= self.list@.len(),
        ensures
            self.index == self.list@.len() ==> r is None,
            self.index < self.list@.len() ==> r == Some(&self.list@[self.index as int]),
    {
        if self.index == self.list.len() {
            None
        } else {
            Some(self.list.get(self.index))
        }
    }

    /// `true` if the cursor points to no element.
    pub fn is_dangling(&self) -> (r: bool)
        ensures
            r == (self.index >= self.list@.len()),
    {
        self.index >= self.list.len()
    }

    /// Moves the cursor one element towards the back.
    pub fn move_next(&mut self)
        requires
            old(self).index <= old(self).list@.len(),
        ensures
            final(self).list == old(self).list,
            old(self).index < old(self).list@.len() ==> final(self).index == old(self).index + 1,
            old(self).index == old(self).list@.len() ==> final(self).index == old(self).index,
    {
        if self.index < self.list.len() {
            self.index = self.index + 1;
        }
    }

    /// Moves the cursor one element towards the front; from the front it
    /// becomes dangling.
    pub fn move_prev(&mut self)
        requires
            old(self).index <= old(self).list@.len(),
        ensures
            final(self).list == old(self).list,
            0 < old(self).index < old(self).list@.len() ==> final(self).index == old(self).index - 1,
            old(self).index == 0 ==> final(self).index == final(self).list@.len(),
            old(self).index == old(self).list@.len() ==> final(self).index == old(self).index,
    {
        if self.index == 0 {
            self.index = self.list.len();
        } else if self.index < self.list.len() {
            self.index = self.index - 1;
        }
    }

    /// Removes the element under the cursor; the cursor advances to the
    /// next element (or dangles if the removed one was last).
    pub fn remove_current(&mut self) -> (r: Option<T>)
        requires
            old(self).index <= old(self).list@.len(),
        ensures
            final(self).index == old(self).index,
            old(self).index == old(self).list@.len() ==> r is None
                && final(self).list == old(self).list,
            old(self).index < old(self).list@.len() ==> {
                &&& r == Some(old(self).list@[old(self).index as int])
                &&& final(self).list@ == old(self).list@.remove(old(self).index as int)
            },
    {
        if self.index == self.list.len() {
            None
        } else {
            Some(self.list.remove_at(self.index))
        }
    }

    /// Inserts a node before the current element and moves the cursor to
    /// it; with a dangling cursor the node goes to the back.
    pub fn insert_before(&mut self, new_node: T)
        requires
            old(self).index <= old(self).list@.len(),
        ensures
            final(self).index == old(self).index,
            final(self).list@ == old(self).list@.insert(old(self).index as int, new_node),
            final(self).list@[final(self).index as int] == new_node,
    {
        let i = self.index;
        self.list.items.insert(i, new_node);
        proof {
            assert(final(self).list@ =~= old(self).list@.insert(old(self).index as int, new_node));
        }
    }

    /// Inserts a node after the current element and moves the cursor to
    /// it; with a dangling cursor the node goes to the front.
    pub fn insert_after(&mut self, new_node: T)
        requires
            old(self).index <= old(self).list@.len(),
        ensures
            old(self).index < old(self).list@.len() ==> {
                &&& final(self).index == old(self).index + 1
                &&& final(self).list@ == old(self).list@.insert(old(self).index + 1, new_node)
            },
            old(self).index == old(self).list@.len() ==> {
                &&& final(self).index == 0
                &&& final(self).list@ == seq![new_node].add(old(self).list@)
            },
            final(self).list@[final(self).index as int] == new_node,
    {
        if self.index == self.list.len() {
            self.list.push_front(new_node);
            self.index = 0;
        } else {
            let i = self.index + 1;
            self.list.items.insert(i, new_node);
            self.index = i;
            proof {
                assert(final(self).list@ =~= old(self).list@.insert(
                    old(self).index + 1,
                    new_node,
                ));
            }
        }
    }

    /// Splits the list after the current element and returns the tail; the
    /// current element becomes the last of the remaining list. At a
    /// dangling cursor an empty list is returned.
    pub fn split_after(&mut self) -> (r: IntrusiveList<T>)
        requires
            old(self).index <= old(self).list@.len(),
        ensures
            final(self).index == old(self).index,
            old(self).index < old(self).list@.len() ==> {
                &&& final(self).list@ == old(self).list@.take(old(self).index + 1)
                &&& r@ == old(self).list@.skip(old(self).index + 1)
            },
            old(self).index == old(self).list@.len() ==> r@.len() == 0
                && final(self).list == old(self).list,
    {
        if self.index == self.list.len() {
            IntrusiveList::new()
        } else {
            let at = self.index + 1;
            let tail = self.list.items.split_off(at);
            proof {
                assert(final(self).list@ =~= old(self).list@.take(old(self).index + 1));
                assert(tail@ =~= old(self).list@.skip(old(self).index + 1));
            }
            IntrusiveList { items: tail }
        }
    }

    /// Moves every element of `other` to just after the current element,
    /// leaving `other` empty. With a dangling cursor they go to the back.
    pub fn splice_after(&mut self, other: &mut IntrusiveList<T>)
        requires
            old(self).index <= old(self).list@.len(),
        ensures
            final(self).index == old(self).index,
            final(other)@.len() == 0,
            old(self).index < old(self).list@.len() ==> final(self).list@
                == old(self).list@.take(old(self).index + 1).add(old(other)@).add(
                old(self).list@.skip(old(self).index + 1)),
            old(self).index == old(self).list@.len() ==> final(self).list@
                == old(self).list@.add(old(other)@),
    {
        if self.index == self.list.len() {
            self.list.items.append(&mut other.items);
        } else {
            let at = self.index + 1;
            let mut tail = self.list.items.split_off(at);
            self.list.items.append(&mut other.items);
            self.list.items.append(&mut tail);
            proof {
                assert(final(self).list@ =~= old(self).list@.take(old(self).index + 1).add(
                    old(other)@,
                ).add(old(self).list@.skip(old(self).index + 1)));
            }
        }
    }

    /// Gives the list back once navigation is done.
    pub fn into_list(self) -> (r: IntrusiveList<T>)
        ensures
            r@ == self.list@,
    {
        self.list
    }
}

} // verus!
