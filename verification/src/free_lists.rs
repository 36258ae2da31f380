//! Per-order free lists with a summary bitmap.
//!
//! One list of free block heads per buddy order, plus a `u64` whose bit `k`
//! is set exactly when list `k` is non-empty. The bitmap is an invariant,
//! not a cache: every mutation keeps it synchronized, and order lookup is a
//! scan of the bitmap alone.

use vstd::prelude::*;

verus! {

use crate::intrusive_list::IntrusiveList;

/// Bit `k` of `bits`.
pub open spec fn spec_bit(bits: u64, k: int) -> bool {
    bits & (1u64 << (k as u64)) != 0
}

/// Summary of which orders have free blocks.
#[derive(Debug, Clone, Copy, PartialEq, Eq, Structural)]
pub struct Bitmap(pub u64);

impl Bitmap {
    pub fn new() -> (r: Self)
        ensures
            r.0 == 0,
    {
        Bitmap(0)
    }

    /// Sets the bit for `order`.
    pub fn set(&mut self, order: u8)
        requires
            order < 64,
        ensures
            forall|j: int| 0 <= j < 64 ==> (spec_bit(final(self).0, j)
                <==> (j == order || spec_bit(old(self).0, j))),
    {
        let ghost prev = self.0;
        self.0 = self.0 | (1u64 << (order as u64));
        proof {
            let o = order as u64;
            let cur = self.0;
            assert(cur == prev | (1u64 << o));
            assert forall|j: int| 0 <= j < 64 implies (spec_bit(cur, j)
                <==> (j == order || spec_bit(prev, j))) by {
                let ju = j as u64;
                assert(o < 64 && ju < 64 && cur == (prev | (1u64 << o))
                    ==> ((cur & (1u64 << ju) != 0)
                    <==> (ju == o || prev & (1u64 << ju) != 0))) by (bit_vector);
            }
        }
    }

    /// Clears the bit for `order`.
    pub fn clear(&mut self, order: u8)
        requires
            order < 64,
        ensures
            forall|j: int| 0 <= j < 64 ==> (spec_bit(final(self).0, j)
                <==> (j != order && spec_bit(old(self).0, j))),
    {
        let ghost prev = self.0;
        self.0 = self.0 & !(1u64 << (order as u64));
        proof {
            let o = order as u64;
            let cur = self.0;
            assert(cur == prev & !(1u64 << o));
            assert forall|j: int| 0 <= j < 64 implies (spec_bit(cur, j)
                <==> (j != order && spec_bit(prev, j))) by {
                let ju = j as u64;
                assert(o < 64 && ju < 64 && cur == (prev & !(1u64 << o))
                    ==> ((cur & (1u64 << ju) != 0)
                    <==> (ju != o && prev & (1u64 << ju) != 0))) by (bit_vector);
            }
        }
    }

    /// Smallest set bit at or above `requested_order`, if any.
    pub fn find_first_set_from(&self, requested_order: u8) -> (r: Option<u8>)
        ensures
            r is Some ==> {
                &&& requested_order <= r->0 < 64
                &&& spec_bit(self.0, r->0 as int)
                &&& forall|j: int| requested_order <= j < r->0 ==> !spec_bit(self.0, j)
            },
            r is None ==> forall|j: int| requested_order <= j < 64 ==> !spec_bit(self.0, j),
    {
        if requested_order >= 64 {
            return None;
        }
        let mut k = requested_order;
        while k < 64
            invariant
                requested_order <= k <= 64,
                forall|j: int| requested_order <= j < k ==> !spec_bit(self.0, j),
            decreases 64 - k,
        {
            if self.0 & (1u64 << (k as u64)) != 0 {
                return Some(k);
            }
            k = k + 1;
        }
        None
    }
}

/// The buddy allocator's array of free lists, one per order, with its
/// bitmap. The view is the sequence of per-order sequences of free block
/// heads (frame indices), front first.
#[derive(Debug)]
pub struct FreeLists {
    lists: Vec<IntrusiveList<usize>>,
    bitmap: Bitmap,
}

impl View for FreeLists {
    type V = Seq<Seq<usize>>;

    closed spec fn view(&self) -> Seq<Seq<usize>> {
        Seq::new(self.lists@.len(), |k: int| self.lists@[k]@)
    }
}

impl FreeLists {
    pub closed spec fn spec_bitmap(&self) -> u64 {
        self.bitmap.0
    }

    /// Bit `k` of the bitmap tracks exactly whether list `k` is non-empty.
    pub open spec fn wf(&self) -> bool {
        &&& self@.len() <= 64
        &&& forall|k: int| 0 <= k < 64 ==> (spec_bit(self.spec_bitmap(), k)
            <==> (k < self@.len() && self@[k].len() > 0))
    }

    /// One empty list per order.
    pub fn new(orders: usize) -> (r: Self)
        requires
            orders <= 64,
        ensures
            r.wf(),
            r@.len() == orders,
            forall|k: int| 0 <= k < orders ==> r@[k].len() == 0,
            r.spec_bitmap() == 0,
    {
        let mut lists: Vec<IntrusiveList<usize>> = Vec::new();
        let mut i: usize = 0;
        while i < orders
            invariant
                i <= orders,
                lists@.len() == i,
                forall|k: int| 0 <= k < i ==> lists@[k]@.len() == 0,
            decreases orders - i,
        {
            lists.push(IntrusiveList::new());
            i = i + 1;
        }
        let r = FreeLists { lists, bitmap: Bitmap::new() };
        proof {
            assert(forall|j: int| 0 <= j < 64 ==> !spec_bit(0u64, j)) by {
                assert(forall|ju: u64| ju < 64 ==> (0u64 & (1u64 << ju)) == 0) by (bit_vector);
            }
        }
        r
    }

    pub fn bitmap_bits(&self) -> (r: u64)
        ensures
            r == self.spec_bitmap(),
    {
        self.bitmap.0
    }

    /// Pushes a free block head onto the front of its order's list.
    pub fn push_frame(&mut self, frame: usize, order: u8)
        requires
            old(self).wf(),
            order < old(self)@.len(),
        ensures
            final(self).wf(),
            final(self)@.len() == old(self)@.len(),
            final(self)@[order as int] == seq![frame].add(old(self)@[order as int]),
            forall|k: int| 0 <= k < old(self)@.len() && k != order
                ==> final(self)@[k] == old(self)@[k],
    {
        let list = &mut self.lists[order as usize];
        list.push_front(frame);
        self.bitmap.set(order);
        proof {
            assert(self@.len() == old(self)@.len());
            assert(self@[order as int] =~= seq![frame].add(old(self)@[order as int]));
            assert forall|k: int| 0 <= k < old(self)@.len() && k != order
                implies self@[k] == old(self)@[k] by {
                assert(self.lists@[k] == old(self).lists@[k]);
            }
            assert forall|k: int| 0 <= k < 64 implies (spec_bit(self.spec_bitmap(), k)
                <==> (k < self@.len() && self@[k].len() > 0)) by {
                if k == order {
                    assert(spec_bit(self.spec_bitmap(), k));
                    assert(self@[k].len() > 0);
                } else {
                    assert(spec_bit(self.spec_bitmap(), k) <==> spec_bit(old(self).spec_bitmap(), k));
                    if 0 <= k < old(self)@.len() {
                        assert(self@[k] == old(self)@[k]);
                    }
                }
            }
        }
    }

    /// Pops the front of list `order`, clearing its bit when it empties.
    pub fn pop_frame(&mut self, order: u8) -> (r: Option<usize>)
        requires
            old(self).wf(),
            order < old(self)@.len(),
        ensures
            final(self).wf(),
            final(self)@.len() == old(self)@.len(),
            old(self)@[order as int].len() == 0 ==> r is None && final(self)@ == old(self)@,
            old(self)@[order as int].len() > 0 ==> {
                &&& r == Some(old(self)@[order as int][0])
                &&& final(self)@[order as int] == old(self)@[order as int].drop_first()
            },
            forall|k: int| 0 <= k < old(self)@.len() && k != order
                ==> final(self)@[k] == old(self)@[k],
    {
        let list = &mut self.lists[order as usize];
        let r = list.pop_front();
        match r {
            None => {
                proof {
                    assert(self@ =~= old(self)@);
                    assert(self.spec_bitmap() == old(self).spec_bitmap());
                    assert forall|k: int| 0 <= k < 64 implies (spec_bit(self.spec_bitmap(), k)
                        <==> (k < self@.len() && self@[k].len() > 0)) by {
                        assert(spec_bit(old(self).spec_bitmap(), k)
                            <==> (k < old(self)@.len() && old(self)@[k].len() > 0));
                    }
                }
                None
            },
            Some(frame) => {
                if self.lists[order as usize].is_empty() {
                    self.bitmap.clear(order);
                }
                proof {
                    assert(self@.len() == old(self)@.len());
                    assert(self@[order as int] == old(self)@[order as int].drop_first());
                    assert forall|k: int| 0 <= k < old(self)@.len() && k != order
                        implies self@[k] == old(self)@[k] by {
                        assert(self.lists@[k] == old(self).lists@[k]);
                    }
                    assert forall|k: int| 0 <= k < 64 implies (spec_bit(self.spec_bitmap(), k)
                        <==> (k < self@.len() && self@[k].len() > 0)) by {
                        if k == order {
                            if self@[k].len() == 0 {
                                assert(!spec_bit(self.spec_bitmap(), k));
                            } else {
                                assert(self.spec_bitmap() == old(self).spec_bitmap());
                                assert(spec_bit(old(self).spec_bitmap(), k));
                            }
                        } else {
                            assert(spec_bit(self.spec_bitmap(), k)
                                <==> spec_bit(old(self).spec_bitmap(), k));
                            if 0 <= k < old(self)@.len() {
                                assert(self@[k] == old(self)@[k]);
                            }
                        }
                    }
                }
                Some(frame)
            },
        }
    }

    /// Splices a specific block head out of its order's list.
    pub fn remove_frame(&mut self, frame: usize, order: u8)
        requires
            old(self).wf(),
            order < old(self)@.len(),
            old(self)@[order as int].contains(frame),
        ensures
            final(self).wf(),
            final(self)@.len() == old(self)@.len(),
            exists|p: int| {
                &&& 0 <= p < old(self)@[order as int].len()
                &&& old(self)@[order as int][p] == frame
                &&& final(self)@[order as int] == old(self)@[order as int].remove(p)
            },
            forall|k: int| 0 <= k < old(self)@.len() && k != order
                ==> final(self)@[k] == old(self)@[k],
    {
        let list = &mut self.lists[order as usize];
        let mut p: usize = 0;
        let ghost target = old(self)@[order as int];
        while p < list.len() && *list.get(p) != frame
            invariant
                list@ == target,
                p <= target.len(),
                target.contains(frame),
                forall|q: int| 0 <= q < p ==> target[q] != frame,
            decreases target.len() - p,
        {
            p = p + 1;
        }
        proof {
            if p >= target.len() {
                let w = choose|w: int| 0 <= w < target.len() && target[w] == frame;
                assert(target[w] != frame);
                assert(false);
            }
            assert(target[p as int] == frame);
        }
        let ghost pos = p as int;
        list.remove_at(p);
        if self.lists[order as usize].is_empty() {
            self.bitmap.clear(order);
        }
        proof {
            assert(self@.len() == old(self)@.len());
            assert(self@[order as int] == old(self)@[order as int].remove(pos));
            assert(0 <= pos < old(self)@[order as int].len()
                && old(self)@[order as int][pos] == frame
                && self@[order as int] == old(self)@[order as int].remove(pos));
            assert forall|k: int| 0 <= k < old(self)@.len() && k != order
                implies self@[k] == old(self)@[k] by {
                assert(self.lists@[k] == old(self).lists@[k]);
            }
            assert forall|k: int| 0 <= k < 64 implies (spec_bit(self.spec_bitmap(), k)
                <==> (k < self@.len() && self@[k].len() > 0)) by {
                if k == order {
                    if self@[k].len() == 0 {
                        assert(!spec_bit(self.spec_bitmap(), k));
                    } else {
                        assert(self.spec_bitmap() == old(self).spec_bitmap());
                        assert(spec_bit(old(self).spec_bitmap(), k));
                    }
                } else {
                    assert(spec_bit(self.spec_bitmap(), k)
                        <==> spec_bit(old(self).spec_bitmap(), k));
                    if 0 <= k < old(self)@.len() {
                        assert(self@[k] == old(self)@[k]);
                    }
                }
            }
        }
    }

    /// Whether `frame` heads a block on list `order`.
    pub fn contains_frame(&self, order: u8, frame: usize) -> (r: bool)
        requires
            order < self@.len(),
        ensures
            r == self@[order as int].contains(frame),
    {
        let list = &self.lists[order as usize];
        let mut p: usize = 0;
        while p < list.len()
            invariant
                list@ == self@[order as int],
                p <= list@.len(),
                forall|q: int| 0 <= q < p ==> list@[q] != frame,
            decreases list@.len() - p,
        {
            if *list.get(p) == frame {
                assert(list@[p as int] == frame);
                return true;
            }
            p = p + 1;
        }
        false
    }

    /// Smallest order at or above `from_order` with a free block.
    pub fn find_first_free_from(&self, from_order: u8) -> (r: Option<u8>)
        requires
            self.wf(),
        ensures
            r is Some ==> {
                &&& from_order <= r->0
                &&& r->0 < self@.len()
                &&& self@[r->0 as int].len() > 0
                &&& forall|j: int| from_order <= j < r->0 ==> j < self@.len()
                    ==> self@[j].len() == 0
            },
            r is None ==> forall|j: int| from_order <= j < self@.len() ==> self@[j].len() == 0,
    {
        let r = self.bitmap.find_first_set_from(from_order);
        proof {
            match r {
                Some(k) => {
                    assert(spec_bit(self.spec_bitmap(), k as int));
                    assert(k < self@.len() && self@[k as int].len() > 0);
                    assert forall|j: int| from_order <= j < k && j < self@.len()
                        implies self@[j].len() == 0 by {
                        assert(!spec_bit(self.spec_bitmap(), j));
                    }
                },
                None => {
                    assert forall|j: int| from_order <= j < self@.len()
                        implies self@[j].len() == 0 by {
                        assert(!spec_bit(self.spec_bitmap(), j));
                    }
                },
            }
        }
        r
    }
}

} // verus!
