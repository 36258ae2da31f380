//! Per-hart caches of free items.
//!
//! A `HartCache` is a hart-local LIFO stash of free handles (frames or
//! slots) in front of a global pool. It is owned by exactly one hart, so in
//! the kernel it is accessed without a lock; here that exclusivity shows up
//! as `&mut` access. A sizing policy decides how many items to pull in on a
//! miss and how many to spill when the cache is over target.

use vstd::prelude::*;

verus! {

use crate::singly_linked_list::{IntoIter, SinglyLinkedList};

/// Upper bound on the number of harts; the per-hart arrays are sized by it.
pub const MAX_HARTS: usize = 12;

/// A refill/drain policy for a [`HartCache`].
///
/// The `spec_*` functions pin each amount; the executable methods are
/// proved to compute them, so cache contracts can speak precisely about
/// any policy.
pub trait CacheStrategy: Sized {
    spec fn spec_refill_amount(target_size: int, current_len: int) -> int;

    spec fn spec_drain_amount(target_size: int, current_len: int) -> int;

    spec fn spec_decrease_target(target_size: int) -> int;

    spec fn spec_increase_target(target_size: int) -> int;

    /// How many items to pull from the global pool on a miss.
    fn refill_amount(&self, target_size: usize, current_len: usize) -> (r: usize)
        ensures
            r == Self::spec_refill_amount(target_size as int, current_len as int);

    /// How many items to spill to the global pool when full.
    fn drain_amount(&self, target_size: usize, current_len: usize) -> (r: usize)
        ensures
            r == Self::spec_drain_amount(target_size as int, current_len as int),
            r <= current_len;

    fn decrease_target(&self, target_size: usize) -> (r: usize)
        ensures
            r == Self::spec_decrease_target(target_size as int);

    fn increase_target(&self, target_size: usize) -> (r: usize)
        requires
            0 <= Self::spec_increase_target(target_size as int) <= usize::MAX,
        ensures
            r == Self::spec_increase_target(target_size as int);
}

/// Policy of the buddy allocator's order-0 caches: move a quarter of the
/// target at a time, and scale the target by four.
#[derive(Debug, Clone, PartialEq, Eq)]
pub struct Quartering;

/// Policy of the slab allocator's slot caches: refill up to the target in
/// one go, spill half only when far over target, never resize.
#[derive(Debug, Clone, PartialEq, Eq)]
pub struct Greedy;

impl CacheStrategy for Quartering {
    open spec fn spec_refill_amount(target_size: int, current_len: int) -> int {
        if target_size / 4 > 1 {
            target_size / 4
        } else {
            1
        }
    }

    open spec fn spec_drain_amount(target_size: int, current_len: int) -> int {
        if target_size / 4 < current_len {
            target_size / 4
        } else {
            current_len
        }
    }

    open spec fn spec_decrease_target(target_size: int) -> int {
        target_size / 4
    }

    open spec fn spec_increase_target(target_size: int) -> int {
        target_size * 4
    }

    fn refill_amount(&self, target_size: usize, current_len: usize) -> usize {
        let quarter = target_size / 4;
        if quarter > 1 {
            quarter
        } else {
            1
        }
    }

    fn drain_amount(&self, target_size: usize, current_len: usize) -> usize {
        let quarter = target_size / 4;
        if quarter < current_len {
            quarter
        } else {
            current_len
        }
    }

    fn decrease_target(&self, target_size: usize) -> usize {
        target_size / 4
    }

    fn increase_target(&self, target_size: usize) -> usize {
        target_size * 4
    }
}

impl CacheStrategy for Greedy {
    open spec fn spec_refill_amount(target_size: int, current_len: int) -> int {
        if current_len < target_size {
            target_size - current_len
        } else {
            0
        }
    }

    open spec fn spec_drain_amount(target_size: int, current_len: int) -> int {
        if current_len > 2 * target_size {
            current_len / 2
        } else {
            0
        }
    }

    open spec fn spec_decrease_target(target_size: int) -> int {
        target_size
    }

    open spec fn spec_increase_target(target_size: int) -> int {
        target_size
    }

    fn refill_amount(&self, target_size: usize, current_len: usize) -> usize {
        if current_len < target_size {
            target_size - current_len
        } else {
            0
        }
    }

    fn drain_amount(&self, target_size: usize, current_len: usize) -> usize {
        if current_len > target_size && current_len - target_size > target_size {
            current_len / 2
        } else {
            0
        }
    }

    fn decrease_target(&self, target_size: usize) -> usize {
        target_size
    }

    fn increase_target(&self, target_size: usize) -> usize {
        target_size
    }
}

/// A hart-local cache of free items with a policy-driven target size.
///
/// In the kernel each cache is cache-line aligned so that neighbouring
/// harts' caches never share a line.
#[derive(Debug)]
pub struct HartCache<T, S: CacheStrategy> {
    items: SinglyLinkedList<T>,
    strategy: S,
    target_size: usize,
}

impl<T, S: CacheStrategy> View for HartCache<T, S> {
    type V = Seq<T>;

    closed spec fn view(&self) -> Seq<T> {
        self.items@
    }
}

impl<T, S: CacheStrategy> HartCache<T, S> {
    /// The adjustable size the policy steers the cache towards.
    pub closed spec fn spec_target(&self) -> usize {
        self.target_size
    }

    pub fn new(target_size: usize, strategy: S) -> (r: Self)
        ensures
            r@ == Seq::<T>::empty(),
            r.spec_target() == target_size,
    {
        HartCache { items: SinglyLinkedList::new(), strategy, target_size }
    }

    pub fn len(&self) -> (r: usize)
        ensures
            r == self@.len(),
    {
        self.items.len()
    }

    pub fn is_empty(&self) -> (r: bool)
        ensures
            r == (self@.len() == 0),
    {
        self.items.is_empty()
    }

    /// A cache at or over its target is full.
    pub fn is_full(&self) -> (r: bool)
        ensures
            r == (self@.len() >= self.spec_target()),
    {
        self.items.len() >= self.target_size
    }

    pub fn target_size(&self) -> (r: usize)
        ensures
            r == self.spec_target(),
    {
        self.target_size
    }

    /// Stashes an item at the front.
    pub fn push(&mut self, item: T)
        ensures
            final(self)@ == seq![item].add(old(self)@),
            final(self).spec_target() == old(self).spec_target(),
    {
        self.items.push_front(item);
    }

    /// Takes the most recently stashed item.
    pub fn pop(&mut self) -> (r: Option<T>)
        ensures
            final(self).spec_target() == old(self).spec_target(),
            old(self)@.len() == 0 ==> r is None && final(self)@ == old(self)@,
            old(self)@.len() > 0 ==> r == Some(old(self)@[0])
                && final(self)@ == old(self)@.drop_first(),
    {
        self.items.pop_front()
    }

    /// Detaches `drain_amount()` items for return to the global pool.
    pub fn drain(&mut self) -> (r: IntoIter<T>)
        ensures
            final(self).spec_target() == old(self).spec_target(),
            ({
                let d = S::spec_drain_amount(
                    old(self).spec_target() as int,
                    old(self)@.len() as int,
                );
                &&& final(self)@ == old(self)@.skip(d)
                &&& r.remaining@ == old(self)@.take(d)
            }),
    {
        let amount = self.drain_amount();
        let r = self.items.drain(amount);
        proof {
            let d = S::spec_drain_amount(old(self).spec_target() as int, old(self)@.len() as int);
            if d >= old(self)@.len() {
                assert(old(self)@.skip(d) =~= final(self)@);
                assert(old(self)@.take(d) =~= r.remaining@);
            }
        }
        r
    }

    /// How many items the policy would pull in now.
    pub fn refill_amount(&self) -> (r: usize)
        ensures
            r == S::spec_refill_amount(self.spec_target() as int, self@.len() as int),
    {
        self.strategy.refill_amount(self.target_size, self.items.len())
    }

    /// How many items the policy would spill now.
    pub fn drain_amount(&self) -> (r: usize)
        ensures
            r == S::spec_drain_amount(self.spec_target() as int, self@.len() as int),
            r <= self@.len(),
    {
        self.strategy.drain_amount(self.target_size, self.items.len())
    }

    /// Raises the target per the policy.
    pub fn grow(&mut self)
        requires
            0 <= S::spec_increase_target(old(self).spec_target() as int) <= usize::MAX,
        ensures
            final(self)@ == old(self)@,
            final(self).spec_target()
                == S::spec_increase_target(old(self).spec_target() as int),
    {
        self.target_size = self.strategy.increase_target(self.target_size);
    }

    /// Lowers the target per the policy.
    pub fn shrink(&mut self)
        ensures
            final(self)@ == old(self)@,
            final(self).spec_target()
                == S::spec_decrease_target(old(self).spec_target() as int),
    {
        self.target_size = self.strategy.decrease_target(self.target_size);
    }
}

} // verus!
