//! SLUB-style slab allocator.
//!
//! Each size class cuts buddy-sourced base pages into equal slots. A page
//! serving as a slab keeps its free-slot stack and in-use count in its
//! frame descriptor; slabs with both free and used slots sit on the
//! class's partial list, fully free slabs are held on the empty list as a
//! warm reserve up to a cap, and fully used slabs are unlisted. Per-hart
//! caches of slots with the greedy policy front every class.

use vstd::prelude::*;

verus! {

use crate::frame::BASE_SIZE;
use crate::frame_allocator::FrameAllocator;
use crate::hart_cache::{Greedy, HartCache, MAX_HARTS};
use crate::intrusive_list::IntrusiveList;
use crate::address::PhysicalAddress;
use vstd::arithmetic::div_mod::{lemma_fundamental_div_mod, lemma_fundamental_div_mod_converse};
use vstd::arithmetic::power2::pow2;

/// Smallest per-hart slot cache target.
pub const MIN_HART_CACHE_TARGET: usize = 8;

/// Largest per-hart slot cache target.
pub const MAX_HART_CACHE_TARGET: usize = 128;

/// How many fully free slabs a class keeps as warm reserve.
pub const EMPTY_SLABS_CAP: usize = 4;

/// Contribution of frame `x` to a class's free-slot census: the free
/// slots its page holds if it is a recorded slab of that class.
pub open spec fn slab_slot_contrib(fa: &FrameAllocator, object_size: usize, x: int) -> int {
    let f = fa.spec_frames()[x];
    if fa.spec_allocated().dom().contains(x) && f.state is Slab
        && f.state->Slab_0.cache == object_size {
        f.state->Slab_0.free_slots@.len() as int
    } else {
        0
    }
}

/// Free slots held by a class's recorded slabs among the first `upto`
/// frames. Together with the buddy allocator's byte accounting this is
/// the slab side of the memory conservation ledger.
pub open spec fn class_free_slots(fa: &FrameAllocator, object_size: usize, upto: int) -> int
    decreases upto,
{
    if upto <= 0 {
        0
    } else {
        class_free_slots(fa, object_size, upto - 1) + slab_slot_contrib(
            fa,
            object_size,
            upto - 1,
        )
    }
}

/// Censuses agree when every frame contributes alike.
proof fn lemma_census_congruent(
    fa1: &FrameAllocator,
    fa2: &FrameAllocator,
    object_size: usize,
    upto: int,
)
    requires
        forall|x: int| 0 <= x < upto ==> slab_slot_contrib(fa2, object_size, x)
            == slab_slot_contrib(fa1, object_size, x),
    ensures
        class_free_slots(fa2, object_size, upto) == class_free_slots(fa1, object_size, upto),
    decreases upto,
{
    if upto > 0 {
        lemma_census_congruent(fa1, fa2, object_size, upto - 1);
    }
}

/// A census moves by exactly the one frame whose contribution changed.
proof fn lemma_census_update(
    fa1: &FrameAllocator,
    fa2: &FrameAllocator,
    object_size: usize,
    x: int,
    upto: int,
)
    requires
        0 <= x < upto,
        forall|y: int| 0 <= y < upto && y != x ==> slab_slot_contrib(fa2, object_size, y)
            == slab_slot_contrib(fa1, object_size, y),
    ensures
        class_free_slots(fa2, object_size, upto) == class_free_slots(fa1, object_size, upto)
            + slab_slot_contrib(fa2, object_size, x) - slab_slot_contrib(fa1, object_size, x),
    decreases upto,
{
    if x == upto - 1 {
        lemma_census_congruent(fa1, fa2, object_size, upto - 1);
    } else {
        lemma_census_update(fa1, fa2, object_size, x, upto - 1);
    }
}

/// One size class: its slab lists, per-hart slot caches and geometry.
pub struct SizeClassManager {
    hart_caches: Vec<HartCache<usize, Greedy>>,
    partial_slabs: IntrusiveList<usize>,
    empty_slabs: IntrusiveList<usize>,
    object_size: usize,
    slots_per_slab: usize,
}

impl SizeClassManager {
    pub closed spec fn spec_object_size(&self) -> usize {
        self.object_size
    }

    pub closed spec fn spec_slots_per_slab(&self) -> usize {
        self.slots_per_slab
    }

    pub closed spec fn spec_partial(&self) -> Seq<usize> {
        self.partial_slabs@
    }

    pub closed spec fn spec_empty(&self) -> Seq<usize> {
        self.empty_slabs@
    }

    pub closed spec fn spec_caches(&self) -> Seq<Seq<usize>> {
        Seq::new(self.hart_caches@.len(), |h: int| self.hart_caches@[h]@)
    }

    /// The target size of hart `h`'s slot cache.
    pub closed spec fn spec_cache_target(&self, h: int) -> usize {
        self.hart_caches@[h].spec_target()
    }

    /// The class's own geometry is consistent.
    pub open spec fn wf_own(&self) -> bool {
        &&& 1 <= self.spec_object_size() <= BASE_SIZE / 2
        &&& BASE_SIZE % self.spec_object_size() == 0
        &&& self.spec_slots_per_slab() == BASE_SIZE / self.spec_object_size()
        &&& self.spec_slots_per_slab() >= 2
        &&& self.spec_caches().len() == MAX_HARTS
    }

    /// Frame `i` is a recorded page serving this class as a slab.
    pub open spec fn is_my_slab(&self, fa: &FrameAllocator, i: int) -> bool {
        &&& fa.spec_allocated().dom().contains(i)
        &&& 0 <= i < fa.spec_frames().len()
        &&& fa.spec_frames()[i].state is Slab
        &&& fa.spec_frames()[i].state->Slab_0.cache == self.spec_object_size()
    }

    /// The slab bookkeeping of frame `i` is consistent: the page is
    /// recorded at order 0, the free-slot stack holds distinct in-page
    /// slots, and the in-use count complements it.
    pub open spec fn slab_ok(&self, fa: &FrameAllocator, i: int) -> bool {
        let info = fa.spec_frames()[i].state->Slab_0;
        &&& self.is_my_slab(fa, i)
        &&& fa.spec_allocated()[i] == 0
        &&& info.in_use_count + info.free_slots@.len() == self.spec_slots_per_slab()
        &&& (forall|q: int| 0 <= q < info.free_slots@.len()
            ==> self.slot_in_page(fa, i, #[trigger] info.free_slots@[q] as int))
        &&& (forall|q1: int, q2: int|
            0 <= q1 < info.free_slots@.len() && 0 <= q2 < info.free_slots@.len() && q1 != q2
                ==> info.free_slots@[q1] != info.free_slots@[q2])
    }

    /// `s` is a slot address inside the page of frame `i`.
    pub open spec fn slot_in_page(&self, fa: &FrameAllocator, i: int, s: int) -> bool {
        &&& fa.addr_of(i) <= s < fa.addr_of(i) + BASE_SIZE
        &&& (s - fa.addr_of(i)) % (self.spec_object_size() as int) == 0
    }

    /// The frame owning slot address `s`.
    pub open spec fn owner_of(&self, fa: &FrameAllocator, s: int) -> int {
        (s - fa.spec_map().ram.start.0) / (BASE_SIZE as int)
    }

    /// Slot `s` is checked out of its slab (cached or loaned).
    pub open spec fn slot_outstanding(&self, fa: &FrameAllocator, s: int) -> bool {
        let o = self.owner_of(fa, s);
        &&& self.slab_ok(fa, o)
        &&& self.slot_in_page(fa, o, s)
        &&& !fa.spec_frames()[o].state->Slab_0.free_slots@.contains(s as usize)
        &&& fa.spec_frames()[o].state->Slab_0.in_use_count >= 1
    }

    /// Lists and caches agree with the frame descriptors: partial slabs
    /// have both used and free slots, empty slabs are fully free and held
    /// below the cap, every slab of this class is listed according to its
    /// fill state, and cached slots are distinct checked-out slots.
    pub open spec fn wf_linked(&self, fa: &FrameAllocator) -> bool {
        &&& self.linked_nocap(fa)
        &&& self.spec_empty().len() < EMPTY_SLABS_CAP
    }

    /// `wf_linked` without the bound on the warm-reserve length.
    pub open spec fn linked_nocap(&self, fa: &FrameAllocator) -> bool {
        &&& (forall|j: int| 0 <= j < self.spec_partial().len() ==> {
            let i = #[trigger] self.spec_partial()[j] as int;
            &&& self.slab_ok(fa, i)
            &&& 0 < fa.spec_frames()[i].state->Slab_0.in_use_count < self.spec_slots_per_slab()
        })
        &&& (forall|j: int| 0 <= j < self.spec_empty().len() ==> {
            let i = #[trigger] self.spec_empty()[j] as int;
            &&& self.slab_ok(fa, i)
            &&& fa.spec_frames()[i].state->Slab_0.in_use_count == 0
        })
        &&& (forall|j1: int, j2: int|
            0 <= j1 < self.spec_partial().len() && 0 <= j2 < self.spec_partial().len()
                && j1 != j2 ==> #[trigger] self.spec_partial()[j1]
                != #[trigger] self.spec_partial()[j2])
        &&& (forall|j1: int, j2: int|
            0 <= j1 < self.spec_empty().len() && 0 <= j2 < self.spec_empty().len() && j1 != j2
                ==> #[trigger] self.spec_empty()[j1] != #[trigger] self.spec_empty()[j2])
        &&& (forall|i: int| self.is_my_slab(fa, i) ==> #[trigger] self.slab_ok(fa, i))
        &&& (forall|i: int| self.is_my_slab(fa, i)
            && #[trigger] fa.spec_frames()[i].state->Slab_0.in_use_count == 0
            ==> self.spec_empty().contains(i as usize))
        &&& (forall|i: int| #[trigger] self.is_my_slab(fa, i)
            && 0 < fa.spec_frames()[i].state->Slab_0.in_use_count < self.spec_slots_per_slab()
            ==> self.spec_partial().contains(i as usize))
        &&& (forall|h: int, j: int|
            0 <= h < self.spec_caches().len() && 0 <= j < self.spec_caches()[h].len()
                ==> self.slot_outstanding(fa, #[trigger] self.spec_caches()[h][j] as int))
        &&& (forall|h1: int, j1: int, h2: int, j2: int|
            0 <= h1 < self.spec_caches().len() && 0 <= j1 < self.spec_caches()[h1].len()
                && 0 <= h2 < self.spec_caches().len() && 0 <= j2 < self.spec_caches()[h2].len()
                && (h1 != h2 || j1 != j2)
                ==> #[trigger] self.spec_caches()[h1][j1]
                    != #[trigger] self.spec_caches()[h2][j2])
    }

    /// Builds a size class for objects of `object_size` bytes.
    pub fn new(num_harts: usize, object_size: usize) -> (r: Self)
        requires
            1 <= object_size <= BASE_SIZE / 2,
            BASE_SIZE % object_size == 0,
        ensures
            r.wf_own(),
            r.spec_object_size() == object_size,
            r.spec_partial().len() == 0,
            r.spec_empty().len() == 0,
            forall|h: int| 0 <= h < MAX_HARTS ==> r.spec_caches()[h].len() == 0,
            forall|h: int| 0 <= h < MAX_HARTS ==> r.spec_cache_target(h) == ({
                let slots = BASE_SIZE / object_size;
                if slots < MIN_HART_CACHE_TARGET {
                    MIN_HART_CACHE_TARGET
                } else if slots > MAX_HART_CACHE_TARGET {
                    MAX_HART_CACHE_TARGET
                } else {
                    slots
                }
            }),
    {
        let slots_per_slab = BASE_SIZE / object_size;
        proof {
            lemma_fundamental_div_mod(BASE_SIZE as int, object_size as int);
            assert(slots_per_slab >= 2) by (nonlinear_arith)
                requires BASE_SIZE as int == (object_size as int) * (slots_per_slab as int)
                    && 1 <= object_size as int
                    && (object_size as int) <= (BASE_SIZE as int) / 2
                    && (BASE_SIZE as int) % (object_size as int) == 0
                    && BASE_SIZE as int >= 2,
            ;
        }
        let hart_cache_target = if slots_per_slab < MIN_HART_CACHE_TARGET {
            MIN_HART_CACHE_TARGET
        } else if slots_per_slab > MAX_HART_CACHE_TARGET {
            MAX_HART_CACHE_TARGET
        } else {
            slots_per_slab
        };
        let mut hart_caches: Vec<HartCache<usize, Greedy>> = Vec::new();
        let mut h: usize = 0;
        while h < MAX_HARTS
            invariant
                hart_caches@.len() == h,
                h <= MAX_HARTS,
                forall|x: int| 0 <= x < h ==> (#[trigger] hart_caches@[x])@.len() == 0
                    && hart_caches@[x].spec_target() == hart_cache_target,
            decreases MAX_HARTS - h,
        {
            hart_caches.push(HartCache::new(hart_cache_target, Greedy));
            h = h + 1;
        }
        let r = SizeClassManager {
            hart_caches,
            partial_slabs: IntrusiveList::new(),
            empty_slabs: IntrusiveList::new(),
            object_size,
            slots_per_slab,
        };
        proof {
            assert forall|hh: int| 0 <= hh < r.spec_caches().len()
                implies #[trigger] r.spec_caches()[hh].len() == 0 by {
                assert(r.spec_caches()[hh] == hart_caches@[hh]@);
            }
        }
        r
    }

    /// Slots of this class are `object_size` bytes.
    pub fn object_size(&self) -> (r: usize)
        ensures
            r == self.spec_object_size(),
    {
        self.object_size
    }

    /// How many slots one slab page holds.
    pub fn slots_per_slab(&self) -> (r: usize)
        ensures
            r == self.spec_slots_per_slab(),
    {
        self.slots_per_slab
    }

    /// Number of slabs on the partial list.
    pub fn partial_count(&self) -> (r: usize)
        ensures
            r == self.spec_partial().len(),
    {
        self.partial_slabs.len()
    }

    /// Number of warm fully-free slabs held.
    pub fn empty_count(&self) -> (r: usize)
        ensures
            r == self.spec_empty().len(),
    {
        self.empty_slabs.len()
    }

    /// The slab lists and caches survive buddy-allocator activity that
    /// leaves this class's slab frames in place.
    proof fn lemma_linked_preserved(&self, fa1: FrameAllocator, fa2: FrameAllocator)
        requires
            self.wf_linked(&fa1),
            fa1.spec_map() == fa2.spec_map(),
            forall|i: int| self.is_my_slab(&fa2, i) ==> #[trigger] self.is_my_slab(&fa1, i)
                && fa2.spec_frames()[i] == fa1.spec_frames()[i]
                && fa2.spec_allocated()[i] == fa1.spec_allocated()[i],
            forall|i: int| #[trigger] self.is_my_slab(&fa1, i) ==> self.is_my_slab(&fa2, i)
                && fa2.spec_frames()[i] == fa1.spec_frames()[i]
                && fa2.spec_allocated()[i] == fa1.spec_allocated()[i],
        ensures
            self.wf_linked(&fa2),
    {
        assert forall|j: int| 0 <= j < self.spec_partial().len() implies {
            let i = #[trigger] self.spec_partial()[j] as int;
            &&& self.slab_ok(&fa2, i)
            &&& 0 < fa2.spec_frames()[i].state->Slab_0.in_use_count
                < self.spec_slots_per_slab()
        } by {
            let i = self.spec_partial()[j] as int;
            assert(self.is_my_slab(&fa1, i));
            assert(self.slot_facts_carry(fa1, fa2, i));
        }
        assert forall|j: int| 0 <= j < self.spec_empty().len() implies {
            let i = #[trigger] self.spec_empty()[j] as int;
            &&& self.slab_ok(&fa2, i)
            &&& fa2.spec_frames()[i].state->Slab_0.in_use_count == 0
        } by {
            let i = self.spec_empty()[j] as int;
            assert(self.is_my_slab(&fa1, i));
            assert(self.slot_facts_carry(fa1, fa2, i));
        }
        assert forall|i: int| self.is_my_slab(&fa2, i) implies #[trigger] self.slab_ok(
            &fa2,
            i,
        ) by {
            assert(self.slab_ok(&fa1, i));
            assert(self.slot_facts_carry(fa1, fa2, i));
        }
        assert forall|i: int| self.is_my_slab(&fa2, i)
            && #[trigger] fa2.spec_frames()[i].state->Slab_0.in_use_count == 0
            implies self.spec_empty().contains(i as usize) by {
            assert(self.is_my_slab(&fa1, i));
        }
        assert forall|i: int| #[trigger] self.is_my_slab(&fa2, i)
            && 0 < fa2.spec_frames()[i].state->Slab_0.in_use_count
                < self.spec_slots_per_slab()
            implies self.spec_partial().contains(i as usize) by {
            assert(self.is_my_slab(&fa1, i));
        }
        assert forall|h: int, j: int|
            0 <= h < self.spec_caches().len() && 0 <= j < self.spec_caches()[h].len()
            implies self.slot_outstanding(&fa2, #[trigger] self.spec_caches()[h][j] as int) by {
            let s = self.spec_caches()[h][j] as int;
            let o = self.owner_of(&fa1, s);
            assert(self.slot_outstanding(&fa1, s));
            assert(self.is_my_slab(&fa1, o));
            assert(self.slot_facts_carry(fa1, fa2, o));
            assert(self.owner_of(&fa2, s) == o);
        }
    }

    /// Helper for carrying per-slab facts between two allocator states
    /// whose descriptors agree on the slab.
    pub open spec fn slot_facts_carry(
        &self,
        fa1: FrameAllocator,
        fa2: FrameAllocator,
        i: int,
    ) -> bool {
        (self.slab_ok(&fa1, i) && fa2.spec_frames()[i] == fa1.spec_frames()[i]
            && fa2.spec_allocated()[i] == fa1.spec_allocated()[i]
            && fa2.spec_allocated().dom().contains(i)
            && fa2.spec_map() == fa1.spec_map() && 0 <= i < fa2.spec_frames().len())
            ==> self.slab_ok(&fa2, i)
    }

    /// Creates a fresh slab: takes one page from the buddy allocator,
    /// links its slots into a free stack (first slot on top) and converts
    /// the page's frame to a slab head of this class. The new slab is
    /// handed to the caller unlisted, with every slot free.
    fn create_new_slab(&self, fa: &mut FrameAllocator, hart: usize) -> (r: Result<usize, ()>)
        requires
            self.wf_own(),
            self.wf_linked(&*old(fa)),
            old(fa).wf(),
            hart < MAX_HARTS,
        ensures
            final(fa).wf(),
            final(fa).spec_map() == old(fa).spec_map(),
            final(fa).spec_orders() == old(fa).spec_orders(),
            r is Err ==> FrameAllocator::same_state(*final(fa), *old(fa))
                && self.wf_linked(&*final(fa))
                && old(fa).spec_caches()[hart as int].len() == 0
                && crate::frame_allocator::spec_first_free(old(fa).spec_lists(), 0)
                >= old(fa).spec_lists().len(),
            r is Ok ==> !(old(fa).spec_caches()[hart as int].len() == 0
                && crate::frame_allocator::spec_first_free(old(fa).spec_lists(), 0)
                >= old(fa).spec_lists().len()),
            r is Ok ==> ({
                let i = r->Ok_0 as int;
                &&& !old(fa).spec_allocated().dom().contains(i)
                &&& final(fa).spec_allocated() == old(fa).spec_allocated().insert(i, 0)
                &&& self.slab_ok(&*final(fa), i)
                &&& final(fa).spec_frames()[i].state->Slab_0.in_use_count == 0
                &&& final(fa).spec_frames()[i].state->Slab_0.free_slots@.len()
                    == self.spec_slots_per_slab()
                &&& !self.spec_partial().contains(r->Ok_0)
                &&& !self.spec_empty().contains(r->Ok_0)
                &&& (forall|x: int| old(fa).spec_allocated().dom().contains(x)
                    ==> final(fa).spec_frames()[x] == old(fa).spec_frames()[x])
                &&& self.linked_except(&*final(fa), i)
            }),
    {
        let page = match fa.alloc_slab(hart) {
            Some(p) => p,
            None => {
                proof {
                    self.lemma_linked_preserved(*old(fa), *fa);
                }
                return Err(());
            },
        };
        proof {
            vstd::arithmetic::power2::lemma2_to64();
            assert(fa.valid_block(page as int, 0));
        }
        let page_addr = fa.memory_map().frame_ref_to_address(page).as_usize();
        let ghost pa = page_addr as int;
        proof {
            assert(pa + BASE_SIZE <= usize::MAX) by {
                assert(fa.valid_block(page as int, 0));
                assert(pa + pow2(0) * BASE_SIZE <= fa.spec_map().free_memory.spec_end());
                assert(pow2(0) * BASE_SIZE == BASE_SIZE) by (nonlinear_arith)
                    requires pow2(0) == 1,
                ;
            }
        }
        let mut slots: Vec<usize> = Vec::new();
        let mut q = self.slots_per_slab;
        proof {
            lemma_fundamental_div_mod(BASE_SIZE as int, self.spec_object_size() as int);
        }
        while q > 0
            invariant
                q <= self.spec_slots_per_slab(),
                self.wf_own(),
                pa == page_addr as int,
                pa + BASE_SIZE <= usize::MAX,
                (self.spec_slots_per_slab() as int) * (self.spec_object_size() as int)
                    == BASE_SIZE as int,
                slots@.len() == self.spec_slots_per_slab() - q,
                forall|x: int| 0 <= x < slots@.len() ==> #[trigger] slots@[x] as int
                    == pa + (self.spec_slots_per_slab() - 1 - x) * (
                    self.spec_object_size() as int),
            decreases q,
        {
            q = q - 1;
            proof {
                assert((q as int) * (self.spec_object_size() as int)
                    <= ((self.spec_slots_per_slab() - 1) as int) * (
                self.spec_object_size() as int)) by (nonlinear_arith)
                    requires q as int <= (self.spec_slots_per_slab() - 1) as int
                        && self.spec_object_size() as int > 0,
                ;
                assert(((self.spec_slots_per_slab() - 1) as int) * (
                self.spec_object_size() as int) < BASE_SIZE as int) by (nonlinear_arith)
                    requires (self.spec_slots_per_slab() as int) * (
                    self.spec_object_size() as int) == BASE_SIZE as int
                        && self.spec_object_size() as int > 0
                        && self.spec_slots_per_slab() as int >= 1,
                ;
            }
            slots.push(page_addr + q * self.object_size);
        }
        let ghost before_convert = *fa;
        fa.convert_to_slab(page, self.object_size, slots);
        proof {
            let i = page as int;
            assert(fa.valid_block(i, 0)) by {
                assert(before_convert.valid_block(i, 0));
            }
            vstd::arithmetic::power2::lemma2_to64();
            assert(fa.addr_of(i) == pa);
            assert(pa + pow2(0) * BASE_SIZE <= fa.spec_map().free_memory.spec_end());
            assert(self.slab_ok(&*fa, i)) by {
                let info = fa.spec_frames()[i].state->Slab_0;
                assert forall|qx: int| 0 <= qx < info.free_slots@.len()
                    implies self.slot_in_page(&*fa, i, #[trigger] info.free_slots@[qx] as int)
                    by {
                    let t = (self.spec_slots_per_slab() - 1 - qx) as int;
                    assert(info.free_slots@[qx] as int
                        == pa + t * (self.spec_object_size() as int));
                    assert(0 <= t * (self.spec_object_size() as int) < BASE_SIZE as int)
                        by (nonlinear_arith)
                        requires 0 <= t <= (self.spec_slots_per_slab() - 1) as int
                            && (self.spec_slots_per_slab() as int) * (
                            self.spec_object_size() as int) == BASE_SIZE as int
                            && self.spec_object_size() as int > 0,
                    ;
                    lemma_fundamental_div_mod_converse(
                        t * (self.spec_object_size() as int),
                        self.spec_object_size() as int,
                        t,
                        0,
                    );
                }
                assert forall|q1: int, q2: int|
                    0 <= q1 < info.free_slots@.len() && 0 <= q2 < info.free_slots@.len()
                        && q1 != q2
                    implies info.free_slots@[q1] != info.free_slots@[q2] by {
                    let t1 = (self.spec_slots_per_slab() - 1 - q1) as int;
                    let t2 = (self.spec_slots_per_slab() - 1 - q2) as int;
                    assert(t1 * (self.spec_object_size() as int)
                        != t2 * (self.spec_object_size() as int)) by (nonlinear_arith)
                        requires t1 != t2 && self.spec_object_size() as int > 0 && t1 >= 0
                            && t2 >= 0,
                    ;
                }
            }
            assert(!self.spec_partial().contains(page)) by {
                if self.spec_partial().contains(page) {
                    let j = choose|j: int|
                        0 <= j < self.spec_partial().len() && self.spec_partial()[j] == page;
                    assert(self.slab_ok(&*old(fa), self.spec_partial()[j] as int));
                    assert(old(fa).spec_allocated().dom().contains(i));
                }
            }
            assert(!self.spec_empty().contains(page)) by {
                if self.spec_empty().contains(page) {
                    let j = choose|j: int|
                        0 <= j < self.spec_empty().len() && self.spec_empty()[j] == page;
                    assert(self.slab_ok(&*old(fa), self.spec_empty()[j] as int));
                    assert(old(fa).spec_allocated().dom().contains(i));
                }
            }
            assert(!old(fa).spec_allocated().dom().contains(i));
            assert(fa.spec_allocated() == old(fa).spec_allocated().insert(i, 0));
            assert(fa.spec_frames()[i].state->Slab_0.in_use_count == 0);
            assert(fa.spec_frames()[i].state->Slab_0.free_slots@.len()
                == self.spec_slots_per_slab());
            assert forall|x: int| old(fa).spec_allocated().dom().contains(x)
                implies fa.spec_frames()[x] == old(fa).spec_frames()[x] by {
                assert(old(fa).valid_block(x, old(fa).spec_allocated()[x]));
                vstd::arithmetic::power2::lemma_pow2_pos(old(fa).spec_allocated()[x]);
                assert(0 <= x < old(fa).spec_frames().len());
                assert(before_convert.spec_frames()[x] == old(fa).spec_frames()[x]);
            }
            assert forall|x: int| self.is_my_slab(&*fa, x) && x != i
                implies #[trigger] self.is_my_slab(&*old(fa), x)
                    && fa.spec_frames()[x] == old(fa).spec_frames()[x]
                    && fa.spec_allocated()[x] == old(fa).spec_allocated()[x] by {
            }
            assert forall|x: int| #[trigger] self.is_my_slab(&*old(fa), x)
                implies x != i && self.is_my_slab(&*fa, x)
                    && fa.spec_frames()[x] == old(fa).spec_frames()[x]
                    && fa.spec_allocated()[x] == old(fa).spec_allocated()[x] by {
            }
            assert(self.linked_except(&*fa, i)) by {
                self.lemma_linked_except_carry(*old(fa), *fa, i);
            }
        }
        Ok(page)
    }

    /// As `linked_except`, but the checked-out slab may still sit on the
    /// partial list (its entry conditions are then the caller's business).
    pub open spec fn linked_partial_except(&self, fa: &FrameAllocator, ex: int) -> bool {
        &&& (forall|j: int| 0 <= j < self.spec_partial().len()
            && #[trigger] self.spec_partial()[j] as int != ex ==> {
            let i = self.spec_partial()[j] as int;
            &&& self.slab_ok(fa, i)
            &&& 0 < fa.spec_frames()[i].state->Slab_0.in_use_count < self.spec_slots_per_slab()
        })
        &&& (forall|j: int| 0 <= j < self.spec_empty().len() ==> {
            let i = #[trigger] self.spec_empty()[j] as int;
            &&& i != ex
            &&& self.slab_ok(fa, i)
            &&& fa.spec_frames()[i].state->Slab_0.in_use_count == 0
        })
        &&& self.spec_empty().len() < EMPTY_SLABS_CAP
        &&& (forall|j1: int, j2: int|
            0 <= j1 < self.spec_partial().len() && 0 <= j2 < self.spec_partial().len()
                && j1 != j2 ==> #[trigger] self.spec_partial()[j1]
                != #[trigger] self.spec_partial()[j2])
        &&& (forall|j1: int, j2: int|
            0 <= j1 < self.spec_empty().len() && 0 <= j2 < self.spec_empty().len() && j1 != j2
                ==> #[trigger] self.spec_empty()[j1] != #[trigger] self.spec_empty()[j2])
        &&& (forall|i: int| self.is_my_slab(fa, i) ==> #[trigger] self.slab_ok(fa, i))
        &&& (forall|i: int| self.is_my_slab(fa, i) && i != ex
            && #[trigger] fa.spec_frames()[i].state->Slab_0.in_use_count == 0
            ==> self.spec_empty().contains(i as usize))
        &&& (forall|i: int| #[trigger] self.is_my_slab(fa, i) && i != ex
            && 0 < fa.spec_frames()[i].state->Slab_0.in_use_count < self.spec_slots_per_slab()
            ==> self.spec_partial().contains(i as usize))
        &&& (forall|h: int, j: int|
            0 <= h < self.spec_caches().len() && 0 <= j < self.spec_caches()[h].len()
                ==> self.slot_outstanding(fa, #[trigger] self.spec_caches()[h][j] as int))
        &&& (forall|h1: int, j1: int, h2: int, j2: int|
            0 <= h1 < self.spec_caches().len() && 0 <= j1 < self.spec_caches()[h1].len()
                && 0 <= h2 < self.spec_caches().len() && 0 <= j2 < self.spec_caches()[h2].len()
                && (h1 != h2 || j1 != j2)
                ==> #[trigger] self.spec_caches()[h1][j1]
                    != #[trigger] self.spec_caches()[h2][j2])
    }

    /// As `wf_linked`, but the slab `ex` is checked out: it is listed
    /// nowhere and exempt from the listing rules, while its bookkeeping
    /// stays consistent.
    pub open spec fn linked_except(&self, fa: &FrameAllocator, ex: int) -> bool {
        &&& (forall|j: int| 0 <= j < self.spec_partial().len() ==> {
            let i = #[trigger] self.spec_partial()[j] as int;
            &&& i != ex
            &&& self.slab_ok(fa, i)
            &&& 0 < fa.spec_frames()[i].state->Slab_0.in_use_count < self.spec_slots_per_slab()
        })
        &&& (forall|j: int| 0 <= j < self.spec_empty().len() ==> {
            let i = #[trigger] self.spec_empty()[j] as int;
            &&& i != ex
            &&& self.slab_ok(fa, i)
            &&& fa.spec_frames()[i].state->Slab_0.in_use_count == 0
        })
        &&& self.spec_empty().len() < EMPTY_SLABS_CAP
        &&& (forall|j1: int, j2: int|
            0 <= j1 < self.spec_partial().len() && 0 <= j2 < self.spec_partial().len()
                && j1 != j2 ==> #[trigger] self.spec_partial()[j1]
                != #[trigger] self.spec_partial()[j2])
        &&& (forall|j1: int, j2: int|
            0 <= j1 < self.spec_empty().len() && 0 <= j2 < self.spec_empty().len() && j1 != j2
                ==> #[trigger] self.spec_empty()[j1] != #[trigger] self.spec_empty()[j2])
        &&& (forall|i: int| self.is_my_slab(fa, i) ==> #[trigger] self.slab_ok(fa, i))
        &&& (forall|i: int| self.is_my_slab(fa, i) && i != ex
            && #[trigger] fa.spec_frames()[i].state->Slab_0.in_use_count == 0
            ==> self.spec_empty().contains(i as usize))
        &&& (forall|i: int| #[trigger] self.is_my_slab(fa, i) && i != ex
            && 0 < fa.spec_frames()[i].state->Slab_0.in_use_count < self.spec_slots_per_slab()
            ==> self.spec_partial().contains(i as usize))
        &&& (forall|h: int, j: int|
            0 <= h < self.spec_caches().len() && 0 <= j < self.spec_caches()[h].len()
                ==> self.slot_outstanding(fa, #[trigger] self.spec_caches()[h][j] as int))
        &&& (forall|h1: int, j1: int, h2: int, j2: int|
            0 <= h1 < self.spec_caches().len() && 0 <= j1 < self.spec_caches()[h1].len()
                && 0 <= h2 < self.spec_caches().len() && 0 <= j2 < self.spec_caches()[h2].len()
                && (h1 != h2 || j1 != j2)
                ==> #[trigger] self.spec_caches()[h1][j1]
                    != #[trigger] self.spec_caches()[h2][j2])
    }

    /// Carries the listing rules over a step that adds one fresh slab of
    /// this class and leaves all other slabs in place.
    proof fn lemma_linked_except_carry(&self, fa1: FrameAllocator, fa2: FrameAllocator, ex: int)
        requires
            self.wf_linked(&fa1),
            fa1.spec_map() == fa2.spec_map(),
            self.slab_ok(&fa2, ex),
            !self.spec_partial().contains(ex as usize) || ex < 0,
            !self.spec_empty().contains(ex as usize) || ex < 0,
            forall|i: int| self.is_my_slab(&fa2, i) && i != ex
                ==> #[trigger] self.is_my_slab(&fa1, i)
                    && fa2.spec_frames()[i] == fa1.spec_frames()[i]
                    && fa2.spec_allocated()[i] == fa1.spec_allocated()[i],
            forall|i: int| #[trigger] self.is_my_slab(&fa1, i) ==> i != ex
                && self.is_my_slab(&fa2, i) && fa2.spec_frames()[i] == fa1.spec_frames()[i]
                && fa2.spec_allocated()[i] == fa1.spec_allocated()[i],
            ex >= 0,
            !self.spec_partial().contains(ex as usize),
            !self.spec_empty().contains(ex as usize),
        ensures
            self.linked_except(&fa2, ex),
    {
        assert forall|j: int| 0 <= j < self.spec_partial().len() implies {
            let i = #[trigger] self.spec_partial()[j] as int;
            &&& i != ex
            &&& self.slab_ok(&fa2, i)
            &&& 0 < fa2.spec_frames()[i].state->Slab_0.in_use_count
                < self.spec_slots_per_slab()
        } by {
            let i = self.spec_partial()[j] as int;
            assert(self.is_my_slab(&fa1, i));
            assert(self.slot_facts_carry(fa1, fa2, i));
        }
        assert forall|j: int| 0 <= j < self.spec_empty().len() implies {
            let i = #[trigger] self.spec_empty()[j] as int;
            &&& i != ex
            &&& self.slab_ok(&fa2, i)
            &&& fa2.spec_frames()[i].state->Slab_0.in_use_count == 0
        } by {
            let i = self.spec_empty()[j] as int;
            assert(self.is_my_slab(&fa1, i));
            assert(self.slot_facts_carry(fa1, fa2, i));
        }
        assert forall|i: int| self.is_my_slab(&fa2, i) implies #[trigger] self.slab_ok(
            &fa2,
            i,
        ) by {
            if i != ex {
                assert(self.slab_ok(&fa1, i));
                assert(self.slot_facts_carry(fa1, fa2, i));
            }
        }
        assert forall|i: int| self.is_my_slab(&fa2, i) && i != ex
            && #[trigger] fa2.spec_frames()[i].state->Slab_0.in_use_count == 0
            implies self.spec_empty().contains(i as usize) by {
            assert(self.is_my_slab(&fa1, i));
        }
        assert forall|i: int| #[trigger] self.is_my_slab(&fa2, i) && i != ex
            && 0 < fa2.spec_frames()[i].state->Slab_0.in_use_count
                < self.spec_slots_per_slab()
            implies self.spec_partial().contains(i as usize) by {
            assert(self.is_my_slab(&fa1, i));
        }
        assert forall|h: int, j: int|
            0 <= h < self.spec_caches().len() && 0 <= j < self.spec_caches()[h].len()
            implies self.slot_outstanding(&fa2, #[trigger] self.spec_caches()[h][j] as int) by {
            let s = self.spec_caches()[h][j] as int;
            let o = self.owner_of(&fa1, s);
            assert(self.slot_outstanding(&fa1, s));
            assert(self.is_my_slab(&fa1, o));
            assert(self.slot_facts_carry(fa1, fa2, o));
            assert(self.owner_of(&fa2, s) == o);
        }
    }

    /// Hands out one slot from the executing hart's cache, refilling the
    /// cache from the class's slabs on a miss. The returned slot address
    /// stays checked out until it is passed back to `dealloc`.
    pub fn allocate(&mut self, fa: &mut FrameAllocator, hart: usize) -> (r: Option<usize>)
        requires
            old(self).wf_own(),
            old(self).wf_linked(&*old(fa)),
            old(fa).wf(),
            hart < MAX_HARTS,
        ensures
            final(fa).wf(),
            final(self).wf_own(),
            final(self).wf_linked(&*final(fa)),
            final(fa).spec_map() == old(fa).spec_map(),
            final(fa).spec_orders() == old(fa).spec_orders(),
            final(self).spec_object_size() == old(self).spec_object_size(),
            final(self).spec_slots_per_slab() == old(self).spec_slots_per_slab(),
            forall|h: int| 0 <= h < MAX_HARTS
                ==> final(self).spec_cache_target(h) == old(self).spec_cache_target(h),
            r is Some ==> final(self).slot_outstanding(&*final(fa), r->0 as int)
                && final(self).slot_uncached(r->0),
            old(self).spec_caches()[hart as int].len() > 0 ==> ({
                // A cache hit serves the request locally.
                &&& r == Some(old(self).spec_caches()[hart as int][0])
                &&& FrameAllocator::same_state(*final(fa), *old(fa))
                &&& final(self).spec_partial() == old(self).spec_partial()
                &&& final(self).spec_empty() == old(self).spec_empty()
                &&& final(self).spec_caches() == old(self).spec_caches().update(
                    hart as int,
                    old(self).spec_caches()[hart as int].drop_first(),
                )
            }),
            ({
                // When every source is dry the request fails.
                &&& old(self).spec_caches()[hart as int].len() == 0
                &&& old(self).spec_partial().len() == 0
                &&& old(self).spec_empty().len() == 0
                &&& old(fa).spec_caches()[hart as int].len() == 0
                &&& crate::frame_allocator::spec_first_free(old(fa).spec_lists(), 0)
                    >= old(fa).spec_lists().len()
            }) ==> r is None,
            (old(self).spec_cache_target(hart as int) >= 1 && r is None) ==> ({
                // Failure means every source ran dry by the end: the hart
                // cache found nothing, both slab lists are gone, and the
                // buddy allocator has no page left.
                &&& old(self).spec_caches()[hart as int].len() == 0
                &&& final(self).spec_partial().len() == 0
                &&& final(self).spec_empty().len() == 0
                &&& final(fa).spec_caches()[hart as int].len() == 0
                &&& crate::frame_allocator::spec_first_free(final(fa).spec_lists(), 0)
                    >= final(fa).spec_lists().len()
            }),
    {
        let ghost pre0 = *self;
        let popped = {
            let c = &mut self.hart_caches[hart];
            c.pop()
        };
        proof {
            Self::lemma_cache_shrunk(pre0, *self, *fa, hart as int);
        }
        match popped {
            Some(s) => {
                proof {
                    assert(pre0.slot_outstanding(&*fa, s as int));
                    assert(self.spec_object_size() == pre0.spec_object_size());
                    assert(self.slot_outstanding(&*fa, s as int)) by {
                        let o = pre0.owner_of(&*fa, s as int);
                        assert(pre0.slab_ok(&*fa, o));
                        assert(self.owner_of(&*fa, s as int) == o);
                    }
                    assert(self.spec_caches() =~= pre0.spec_caches().update(
                        hart as int,
                        pre0.spec_caches()[hart as int].drop_first(),
                    ));
                    // The popped slot is in no cache any more: cached slots
                    // were pairwise distinct.
                    assert forall|h: int, j: int|
                        0 <= h < self.spec_caches().len()
                            && 0 <= j < self.spec_caches()[h].len()
                        implies #[trigger] self.spec_caches()[h][j] != s by {
                        let pj: int = if h == hart as int {
                            j + 1
                        } else {
                            j
                        };
                        assert(self.spec_caches()[h][j] == pre0.spec_caches()[h][pj]);
                        assert(pre0.spec_caches()[h][pj]
                            != pre0.spec_caches()[hart as int][0]);
                    }
                    assert forall|h: int| 0 <= h < MAX_HARTS
                        implies self.spec_cache_target(h) == pre0.spec_cache_target(h) by {
                        if h != hart as int {
                            assert(self.hart_caches@[h] == pre0.hart_caches@[h]);
                        }
                    }
                    assert(self.slot_uncached(s));
                }
                return Some(s);
            },
            None => {
                proof {
                    assert(self.spec_caches() =~= pre0.spec_caches());
                    assert forall|h: int| 0 <= h < MAX_HARTS
                        implies self.spec_cache_target(h) == pre0.spec_cache_target(h) by {
                        if h != hart as int {
                            assert(self.hart_caches@[h] == pre0.hart_caches@[h]);
                        }
                    }
                }
            },
        }
        let ghost before_refill = *self;
        match self.refill_hart_cache(fa, hart) {
            Ok(()) => {},
            Err(()) => {
                proof {
                    assert forall|h: int| 0 <= h < MAX_HARTS
                        implies self.spec_cache_target(h)
                        == old(self).spec_cache_target(h) by {
                        assert(self.spec_cache_target(h)
                            == before_refill.spec_cache_target(h));
                        assert(before_refill.spec_cache_target(h)
                            == pre0.spec_cache_target(h));
                    }
                }
                return None;
            },
        }
        let ghost mid_self = *self;
        let popped2 = {
            let c = &mut self.hart_caches[hart];
            c.pop()
        };
        proof {
            Self::lemma_cache_shrunk(mid_self, *self, *fa, hart as int);
            if mid_self.spec_caches()[hart as int].len() > 0 {
                assert(self.spec_caches() =~= mid_self.spec_caches().update(
                    hart as int,
                    mid_self.spec_caches()[hart as int].drop_first(),
                ));
            } else {
                assert(self.spec_caches() =~= mid_self.spec_caches());
            }
            assert forall|h: int| 0 <= h < MAX_HARTS
                implies self.spec_cache_target(h) == mid_self.spec_cache_target(h) by {
                if h != hart as int {
                    assert(self.hart_caches@[h] == mid_self.hart_caches@[h]);
                }
            }
        }
        match popped2 {
            Some(s) => {
                proof {
                    assert(mid_self.slot_outstanding(&*fa, s as int));
                    assert(self.spec_object_size() == mid_self.spec_object_size());
                    assert(self.slot_outstanding(&*fa, s as int)) by {
                        let o = mid_self.owner_of(&*fa, s as int);
                        assert(mid_self.slab_ok(&*fa, o));
                        assert(self.owner_of(&*fa, s as int) == o);
                    }
                    assert forall|h: int, j: int|
                        0 <= h < self.spec_caches().len()
                            && 0 <= j < self.spec_caches()[h].len()
                        implies #[trigger] self.spec_caches()[h][j] != s by {
                        let pj: int = if h == hart as int {
                            j + 1
                        } else {
                            j
                        };
                        assert(self.spec_caches()[h][j] == mid_self.spec_caches()[h][pj]);
                        assert(mid_self.spec_caches()[h][pj]
                            != mid_self.spec_caches()[hart as int][0]);
                    }
                    assert forall|h: int| 0 <= h < MAX_HARTS
                        implies self.spec_cache_target(h)
                        == old(self).spec_cache_target(h) by {
                        assert(self.spec_cache_target(h) == mid_self.spec_cache_target(h));
                    }
                }
                Some(s)
            },
            None => {
                proof {
                    // A refill that succeeded without filling the cache
                    // means the target is zero.
                    if old(self).spec_cache_target(hart as int) >= 1 {
                        assert(mid_self.spec_caches()[hart as int].len() == 0);
                        assert(false);
                    }
                }
                None
            },
        }
    }

    /// The listing clauses depend only on the lists and the class
    /// geometry, so they carry between states that agree on those.
    proof fn lemma_lists_transfer(a: Self, b: Self, fa: FrameAllocator)
        requires
            a.linked_nocap(&fa),
            b.spec_partial() == a.spec_partial(),
            b.spec_empty() == a.spec_empty(),
            b.spec_object_size() == a.spec_object_size(),
            b.spec_slots_per_slab() == a.spec_slots_per_slab(),
        ensures
            forall|j: int| 0 <= j < b.spec_partial().len() ==> {
                let i = #[trigger] b.spec_partial()[j] as int;
                &&& b.slab_ok(&fa, i)
                &&& 0 < fa.spec_frames()[i].state->Slab_0.in_use_count
                    < b.spec_slots_per_slab()
            },
            forall|j: int| 0 <= j < b.spec_empty().len() ==> {
                let i = #[trigger] b.spec_empty()[j] as int;
                &&& b.slab_ok(&fa, i)
                &&& fa.spec_frames()[i].state->Slab_0.in_use_count == 0
            },
            forall|j1: int, j2: int|
                0 <= j1 < b.spec_partial().len() && 0 <= j2 < b.spec_partial().len()
                    && j1 != j2 ==> #[trigger] b.spec_partial()[j1]
                    != #[trigger] b.spec_partial()[j2],
            forall|j1: int, j2: int|
                0 <= j1 < b.spec_empty().len() && 0 <= j2 < b.spec_empty().len() && j1 != j2
                    ==> #[trigger] b.spec_empty()[j1] != #[trigger] b.spec_empty()[j2],
            forall|i: int| b.is_my_slab(&fa, i) ==> #[trigger] b.slab_ok(&fa, i),
            forall|i: int| b.is_my_slab(&fa, i)
                && #[trigger] fa.spec_frames()[i].state->Slab_0.in_use_count == 0
                ==> b.spec_empty().contains(i as usize),
            forall|i: int| #[trigger] b.is_my_slab(&fa, i)
                && 0 < fa.spec_frames()[i].state->Slab_0.in_use_count
                    < b.spec_slots_per_slab()
                ==> b.spec_partial().contains(i as usize),
    {
        assert forall|j: int| 0 <= j < b.spec_partial().len() implies {
            let i = #[trigger] b.spec_partial()[j] as int;
            &&& b.slab_ok(&fa, i)
            &&& 0 < fa.spec_frames()[i].state->Slab_0.in_use_count < b.spec_slots_per_slab()
        } by {
            let i = b.spec_partial()[j] as int;
            assert(a.slab_ok(&fa, i));
        }
        assert forall|j: int| 0 <= j < b.spec_empty().len() implies {
            let i = #[trigger] b.spec_empty()[j] as int;
            &&& b.slab_ok(&fa, i)
            &&& fa.spec_frames()[i].state->Slab_0.in_use_count == 0
        } by {
            let i = b.spec_empty()[j] as int;
            assert(a.slab_ok(&fa, i));
        }
        assert forall|i: int| b.is_my_slab(&fa, i) implies #[trigger] b.slab_ok(&fa, i) by {
            assert(a.is_my_slab(&fa, i));
            assert(a.slab_ok(&fa, i));
        }
        assert forall|i: int| b.is_my_slab(&fa, i)
            && #[trigger] fa.spec_frames()[i].state->Slab_0.in_use_count == 0
            implies b.spec_empty().contains(i as usize) by {
            assert(a.is_my_slab(&fa, i));
        }
        assert forall|i: int| #[trigger] b.is_my_slab(&fa, i)
            && 0 < fa.spec_frames()[i].state->Slab_0.in_use_count < b.spec_slots_per_slab()
            implies b.spec_partial().contains(i as usize) by {
            assert(a.is_my_slab(&fa, i));
        }
    }

    /// The cache clauses carry between states with equal caches.
    proof fn lemma_caches_transfer(a: Self, b: Self, fa: FrameAllocator)
        requires
            a.wf_linked(&fa),
            b.spec_caches() == a.spec_caches(),
            b.spec_object_size() == a.spec_object_size(),
            b.spec_slots_per_slab() == a.spec_slots_per_slab(),
        ensures
            forall|h: int, j: int|
                0 <= h < b.spec_caches().len() && 0 <= j < b.spec_caches()[h].len()
                    ==> b.slot_outstanding(&fa, #[trigger] b.spec_caches()[h][j] as int),
            forall|h1: int, j1: int, h2: int, j2: int|
                0 <= h1 < b.spec_caches().len() && 0 <= j1 < b.spec_caches()[h1].len()
                    && 0 <= h2 < b.spec_caches().len() && 0 <= j2 < b.spec_caches()[h2].len()
                    && (h1 != h2 || j1 != j2)
                    ==> #[trigger] b.spec_caches()[h1][j1]
                        != #[trigger] b.spec_caches()[h2][j2],
    {
        assert forall|h: int, j: int|
            0 <= h < b.spec_caches().len() && 0 <= j < b.spec_caches()[h].len()
            implies b.slot_outstanding(&fa, #[trigger] b.spec_caches()[h][j] as int) by {
            assert(a.slot_outstanding(&fa, a.spec_caches()[h][j] as int));
        }
    }

    /// The whole linked state carries between states with equal lists and
    /// caches.
    proof fn lemma_linked_congruence(a: Self, b: Self, fa: FrameAllocator)
        requires
            a.wf_linked(&fa),
            b.spec_partial() == a.spec_partial(),
            b.spec_empty() == a.spec_empty(),
            b.spec_caches() == a.spec_caches(),
            b.spec_object_size() == a.spec_object_size(),
            b.spec_slots_per_slab() == a.spec_slots_per_slab(),
        ensures
            b.wf_linked(&fa),
    {
        Self::lemma_lists_transfer(a, b, fa);
        Self::lemma_caches_transfer(a, b, fa);
    }

    /// Popping the front of one hart cache preserves the linked state.
    proof fn lemma_cache_shrunk(pre: Self, post: Self, fa: FrameAllocator, hart: int)
        requires
            pre.wf_own(),
            pre.wf_linked(&fa),
            0 <= hart < pre.spec_caches().len(),
            post.spec_partial() == pre.spec_partial(),
            post.spec_empty() == pre.spec_empty(),
            post.spec_object_size() == pre.spec_object_size(),
            post.spec_slots_per_slab() == pre.spec_slots_per_slab(),
            post.spec_caches().len() == pre.spec_caches().len(),
            pre.spec_caches()[hart].len() == 0 ==> post.spec_caches()[hart]
                == pre.spec_caches()[hart],
            pre.spec_caches()[hart].len() > 0 ==> post.spec_caches()[hart]
                == pre.spec_caches()[hart].drop_first(),
            forall|x: int| 0 <= x < pre.spec_caches().len() && x != hart
                ==> post.spec_caches()[x] == pre.spec_caches()[x],
        ensures
            post.wf_own(),
            post.wf_linked(&fa),
    {
        Self::lemma_lists_transfer(pre, post, fa);
        assert forall|h: int, j: int|
            0 <= h < post.spec_caches().len() && 0 <= j < post.spec_caches()[h].len()
            implies post.slot_outstanding(&fa, #[trigger] post.spec_caches()[h][j] as int) by {
            let pj: int = if h == hart && pre.spec_caches()[hart].len() > 0 {
                j + 1
            } else {
                j
            };
            assert(post.spec_caches()[h][j] == pre.spec_caches()[h][pj]);
            assert(pre.slot_outstanding(&fa, pre.spec_caches()[h][pj] as int));
        }
        assert forall|h1: int, j1: int, h2: int, j2: int|
            0 <= h1 < post.spec_caches().len() && 0 <= j1 < post.spec_caches()[h1].len()
                && 0 <= h2 < post.spec_caches().len() && 0 <= j2 < post.spec_caches()[h2].len()
                && (h1 != h2 || j1 != j2)
            implies #[trigger] post.spec_caches()[h1][j1]
                != #[trigger] post.spec_caches()[h2][j2] by {
            let p1: int = if h1 == hart && pre.spec_caches()[hart].len() > 0 {
                j1 + 1
            } else {
                j1
            };
            let p2: int = if h2 == hart && pre.spec_caches()[hart].len() > 0 {
                j2 + 1
            } else {
                j2
            };
            assert(post.spec_caches()[h1][j1] == pre.spec_caches()[h1][p1]);
            assert(post.spec_caches()[h2][j2] == pre.spec_caches()[h2][p2]);
        }
    }

    /// Popping the front partial slab hands it out checked-out and keeps
    /// the rest of the state linked.
    proof fn lemma_acquired_from_partial(pre: Self, post: Self, fa: FrameAllocator, sl: usize)
        requires
            pre.wf_own(),
            pre.wf_linked(&fa),
            pre.spec_partial().len() > 0,
            sl == pre.spec_partial()[0],
            post.spec_partial() == pre.spec_partial().drop_first(),
            post.spec_empty() == pre.spec_empty(),
            post.spec_caches() == pre.spec_caches(),
            post.spec_object_size() == pre.spec_object_size(),
            post.spec_slots_per_slab() == pre.spec_slots_per_slab(),
        ensures
            post.wf_own(),
            post.linked_except(&fa, sl as int),
            post.slab_ok(&fa, sl as int),
            fa.spec_frames()[sl as int].state->Slab_0.free_slots@.len() > 0,
            fa.spec_frames()[sl as int].state->Slab_0.in_use_count >= 1,
    {
        assert(pre.slab_ok(&fa, sl as int));
        Self::lemma_caches_transfer(pre, post, fa);
        assert forall|j: int| 0 <= j < post.spec_partial().len() implies {
            let i = #[trigger] post.spec_partial()[j] as int;
            &&& i != sl as int
            &&& post.slab_ok(&fa, i)
            &&& 0 < fa.spec_frames()[i].state->Slab_0.in_use_count
                < post.spec_slots_per_slab()
        } by {
            assert(post.spec_partial()[j] == pre.spec_partial()[j + 1]);
            assert(pre.slab_ok(&fa, pre.spec_partial()[j + 1] as int));
        }
        assert forall|j: int| 0 <= j < post.spec_empty().len() implies {
            let i = #[trigger] post.spec_empty()[j] as int;
            &&& i != sl as int
            &&& post.slab_ok(&fa, i)
            &&& fa.spec_frames()[i].state->Slab_0.in_use_count == 0
        } by {
            let i = post.spec_empty()[j] as int;
            assert(pre.slab_ok(&fa, i));
            assert(0 < fa.spec_frames()[sl as int].state->Slab_0.in_use_count);
        }
        assert forall|i: int| post.is_my_slab(&fa, i) implies #[trigger] post.slab_ok(
            &fa,
            i,
        ) by {
            assert(pre.is_my_slab(&fa, i));
            assert(pre.slab_ok(&fa, i));
        }
        assert forall|i: int| post.is_my_slab(&fa, i) && i != sl as int
            && #[trigger] fa.spec_frames()[i].state->Slab_0.in_use_count == 0
            implies post.spec_empty().contains(i as usize) by {
            assert(pre.is_my_slab(&fa, i));
        }
        assert forall|i: int| post.is_my_slab(&fa, i) && i != sl as int
            && 0 < fa.spec_frames()[i].state->Slab_0.in_use_count < post.spec_slots_per_slab()
            implies #[trigger] post.spec_partial().contains(i as usize) by {
            assert(pre.is_my_slab(&fa, i));
            assert(0 <= i);
            fa.lemma_frames_bound();
            assert(i <= usize::MAX);
            assert(pre.spec_partial().contains(i as usize));
            let p = choose|p: int|
                0 <= p < pre.spec_partial().len() && pre.spec_partial()[p] == i as usize;
            assert(pre.spec_partial()[0] == sl);
            assert(p != 0);
            assert(post.spec_partial()[p - 1] == i as usize);
        }
    }

    /// Popping the front warm empty slab hands it out checked-out.
    proof fn lemma_acquired_from_empty(pre: Self, post: Self, fa: FrameAllocator, sl: usize)
        requires
            pre.wf_own(),
            pre.wf_linked(&fa),
            pre.spec_empty().len() > 0,
            sl == pre.spec_empty()[0],
            post.spec_empty() == pre.spec_empty().drop_first(),
            post.spec_partial() == pre.spec_partial(),
            post.spec_caches() == pre.spec_caches(),
            post.spec_object_size() == pre.spec_object_size(),
            post.spec_slots_per_slab() == pre.spec_slots_per_slab(),
        ensures
            post.wf_own(),
            post.linked_except(&fa, sl as int),
            post.slab_ok(&fa, sl as int),
            fa.spec_frames()[sl as int].state->Slab_0.free_slots@.len() > 0,
    {
        assert(pre.slab_ok(&fa, sl as int));
        Self::lemma_caches_transfer(pre, post, fa);
        assert forall|j: int| 0 <= j < post.spec_empty().len() implies {
            let i = #[trigger] post.spec_empty()[j] as int;
            &&& i != sl as int
            &&& post.slab_ok(&fa, i)
            &&& fa.spec_frames()[i].state->Slab_0.in_use_count == 0
        } by {
            assert(post.spec_empty()[j] == pre.spec_empty()[j + 1]);
            assert(pre.slab_ok(&fa, pre.spec_empty()[j + 1] as int));
        }
        assert forall|i: int| post.is_my_slab(&fa, i) implies #[trigger] post.slab_ok(
            &fa,
            i,
        ) by {
            assert(pre.is_my_slab(&fa, i));
            assert(pre.slab_ok(&fa, i));
        }
        assert forall|i: int| post.is_my_slab(&fa, i) && i != sl as int
            && #[trigger] fa.spec_frames()[i].state->Slab_0.in_use_count == 0
            implies post.spec_empty().contains(i as usize) by {
            assert(pre.is_my_slab(&fa, i));
            assert(0 <= i);
            fa.lemma_frames_bound();
            assert(i <= usize::MAX);
            assert(pre.spec_empty().contains(i as usize));
            let p = choose|p: int|
                0 <= p < pre.spec_empty().len() && pre.spec_empty()[p] == i as usize;
            assert(pre.spec_empty()[0] == sl);
            assert(p != 0);
            assert(post.spec_empty()[p - 1] == i as usize);
        }
        assert forall|i: int| post.is_my_slab(&fa, i) && i != sl as int
            && 0 < fa.spec_frames()[i].state->Slab_0.in_use_count < post.spec_slots_per_slab()
            implies #[trigger] post.spec_partial().contains(i as usize) by {
            assert(pre.is_my_slab(&fa, i));
        }
        assert forall|j: int| 0 <= j < post.spec_partial().len() implies {
            let i = #[trigger] post.spec_partial()[j] as int;
            &&& i != sl as int
            &&& post.slab_ok(&fa, i)
            &&& 0 < fa.spec_frames()[i].state->Slab_0.in_use_count
                < post.spec_slots_per_slab()
        } by {
            let i = post.spec_partial()[j] as int;
            assert(pre.spec_partial()[j] == post.spec_partial()[j]);
            assert(pre.slab_ok(&fa, i));
            assert(fa.spec_frames()[sl as int].state->Slab_0.in_use_count == 0);
        }
    }

    /// Taking the top free slot of the checked-out slab into the hart
    /// cache keeps everything linked.
    proof fn lemma_cache_grew(
        pre_self: Self,
        post_self: Self,
        pre_fa: FrameAllocator,
        fa: FrameAllocator,
        hart: int,
        sl: usize,
        slab: int,
    )
        requires
            pre_self.wf_own(),
            pre_self.linked_except(&pre_fa, slab),
            pre_self.slab_ok(&pre_fa, slab),
            pre_fa.spec_frames()[slab].state->Slab_0.free_slots@.len() > 0,
            sl == pre_fa.spec_frames()[slab].state->Slab_0.free_slots@.last(),
            fa.spec_map() == pre_fa.spec_map(),
            fa.spec_allocated() == pre_fa.spec_allocated(),
            fa.spec_frames().len() == pre_fa.spec_frames().len(),
            0 <= slab < pre_fa.spec_frames().len(),
            forall|x: int| 0 <= x < pre_fa.spec_frames().len() && x != slab
                ==> fa.spec_frames()[x] == pre_fa.spec_frames()[x],
            fa.spec_frames()[slab].state is Slab,
            fa.spec_frames()[slab].state->Slab_0.cache
                == pre_fa.spec_frames()[slab].state->Slab_0.cache,
            fa.spec_frames()[slab].state->Slab_0.free_slots@
                == pre_fa.spec_frames()[slab].state->Slab_0.free_slots@.drop_last(),
            fa.spec_frames()[slab].state->Slab_0.in_use_count
                == pre_fa.spec_frames()[slab].state->Slab_0.in_use_count + 1,
            0 <= hart < pre_self.spec_caches().len(),
            post_self.spec_partial() == pre_self.spec_partial(),
            post_self.spec_empty() == pre_self.spec_empty(),
            post_self.spec_object_size() == pre_self.spec_object_size(),
            post_self.spec_slots_per_slab() == pre_self.spec_slots_per_slab(),
            post_self.spec_caches().len() == pre_self.spec_caches().len(),
            post_self.spec_caches()[hart] == seq![sl].add(pre_self.spec_caches()[hart]),
            forall|x: int| 0 <= x < pre_self.spec_caches().len() && x != hart
                ==> post_self.spec_caches()[x] == pre_self.spec_caches()[x],
        ensures
            post_self.wf_own(),
            post_self.linked_except(&fa, slab),
            post_self.slab_ok(&fa, slab),
    {
        let b = BASE_SIZE as int;
        let info0 = pre_fa.spec_frames()[slab].state->Slab_0;
        let last = info0.free_slots@.len() - 1;
        assert(pre_self.slot_in_page(&pre_fa, slab, sl as int));
        // The popped slot is not among the remaining free slots.
        assert(!fa.spec_frames()[slab].state->Slab_0.free_slots@.contains(sl)) by {
            if fa.spec_frames()[slab].state->Slab_0.free_slots@.contains(sl) {
                let q = choose|q: int|
                    0 <= q < info0.free_slots@.drop_last().len()
                        && info0.free_slots@.drop_last()[q] == sl;
                assert(info0.free_slots@[q] == info0.free_slots@[last]);
            }
        }
        // The slot's owning page index recomputes to `slab`.
        assert(post_self.owner_of(&fa, sl as int) == slab) by {
            let ram0 = fa.spec_map().ram.start.0 as int;
            let off = sl as int - ram0;
            assert(fa.addr_of(slab) == ram0 + slab * b);
            assert(slab * b <= off < slab * b + b);
            vstd::arithmetic::div_mod::lemma_fundamental_div_mod_converse(
                off,
                b,
                slab,
                off - slab * b,
            );
        }
        assert(post_self.slab_ok(&fa, slab)) by {
            let info2 = fa.spec_frames()[slab].state->Slab_0;
            assert forall|q: int| 0 <= q < info2.free_slots@.len()
                implies post_self.slot_in_page(&fa, slab, #[trigger] info2.free_slots@[q] as int)
                by {
                assert(info2.free_slots@[q] == info0.free_slots@[q]);
            }
        }
        // Remaining listed slabs and cached slots are untouched.
        assert forall|j: int| 0 <= j < post_self.spec_partial().len() implies {
            let i = #[trigger] post_self.spec_partial()[j] as int;
            &&& i != slab
            &&& post_self.slab_ok(&fa, i)
            &&& 0 < fa.spec_frames()[i].state->Slab_0.in_use_count
                < post_self.spec_slots_per_slab()
        } by {
            let i = post_self.spec_partial()[j] as int;
            assert(pre_self.slab_ok(&pre_fa, i));
        }
        assert forall|j: int| 0 <= j < post_self.spec_empty().len() implies {
            let i = #[trigger] post_self.spec_empty()[j] as int;
            &&& i != slab
            &&& post_self.slab_ok(&fa, i)
            &&& fa.spec_frames()[i].state->Slab_0.in_use_count == 0
        } by {
            let i = post_self.spec_empty()[j] as int;
            assert(pre_self.slab_ok(&pre_fa, i));
        }
        assert forall|i: int| post_self.is_my_slab(&fa, i) implies #[trigger] post_self.slab_ok(
            &fa,
            i,
        ) by {
            if i != slab {
                assert(pre_self.is_my_slab(&pre_fa, i));
                assert(pre_self.slab_ok(&pre_fa, i));
            }
        }
        assert forall|i: int| post_self.is_my_slab(&fa, i) && i != slab
            && #[trigger] fa.spec_frames()[i].state->Slab_0.in_use_count == 0
            implies post_self.spec_empty().contains(i as usize) by {
            assert(pre_self.is_my_slab(&pre_fa, i));
        }
        assert forall|i: int| #[trigger] post_self.is_my_slab(&fa, i) && i != slab
            && 0 < fa.spec_frames()[i].state->Slab_0.in_use_count
                < post_self.spec_slots_per_slab()
            implies post_self.spec_partial().contains(i as usize) by {
            assert(pre_self.is_my_slab(&pre_fa, i));
        }
        assert forall|h: int, j: int|
            0 <= h < post_self.spec_caches().len() && 0 <= j < post_self.spec_caches()[h].len()
            implies post_self.slot_outstanding(
            &fa,
            #[trigger] post_self.spec_caches()[h][j] as int,
        ) by {
            if h == hart && j == 0 {
            } else {
                let pj: int = if h == hart { j - 1 } else { j };
                assert(post_self.spec_caches()[h][j] == pre_self.spec_caches()[h][pj]);
                let s2 = pre_self.spec_caches()[h][pj] as int;
                assert(pre_self.slot_outstanding(&pre_fa, s2));
                let o = pre_self.owner_of(&pre_fa, s2);
                if o == slab {
                    assert(!info0.free_slots@.contains(s2 as usize));
                    assert forall|q: int|
                        0 <= q < fa.spec_frames()[slab].state->Slab_0.free_slots@.len()
                        implies #[trigger] fa.spec_frames()[
                        slab].state->Slab_0.free_slots@[q] != s2 as usize by {
                        assert(fa.spec_frames()[slab].state->Slab_0.free_slots@[q]
                            == info0.free_slots@[q]);
                        assert(info0.free_slots@.contains(info0.free_slots@[q]));
                    }
                }
            }
        }
        assert forall|h1: int, j1: int, h2: int, j2: int|
            0 <= h1 < post_self.spec_caches().len()
                && 0 <= j1 < post_self.spec_caches()[h1].len()
                && 0 <= h2 < post_self.spec_caches().len()
                && 0 <= j2 < post_self.spec_caches()[h2].len() && (h1 != h2 || j1 != j2)
            implies #[trigger] post_self.spec_caches()[h1][j1]
                != #[trigger] post_self.spec_caches()[h2][j2] by {
            if h1 == hart && j1 == 0 {
                if !(h2 == hart && j2 == 0) {
                    let p2: int = if h2 == hart { j2 - 1 } else { j2 };
                    assert(post_self.spec_caches()[h2][j2] == pre_self.spec_caches()[h2][p2]);
                    Self::lemma_cached_slot_differs(pre_self, pre_fa, h2, p2, slab, sl);
                }
            } else if h2 == hart && j2 == 0 {
                let p1: int = if h1 == hart { j1 - 1 } else { j1 };
                assert(post_self.spec_caches()[h1][j1] == pre_self.spec_caches()[h1][p1]);
                Self::lemma_cached_slot_differs(pre_self, pre_fa, h1, p1, slab, sl);
            } else {
                let p1: int = if h1 == hart { j1 - 1 } else { j1 };
                let p2: int = if h2 == hart { j2 - 1 } else { j2 };
                assert(post_self.spec_caches()[h1][j1] == pre_self.spec_caches()[h1][p1]);
                assert(post_self.spec_caches()[h2][j2] == pre_self.spec_caches()[h2][p2]);
            }
        }
    }

    /// A slot cached before a pop differs from the slot just popped off
    /// the checked-out slab's free stack.
    proof fn lemma_cached_slot_differs(
        pre_self: Self,
        pre_fa: FrameAllocator,
        h: int,
        j: int,
        slab: int,
        sl: usize,
    )
        requires
            pre_self.linked_except(&pre_fa, slab),
            pre_self.slab_ok(&pre_fa, slab),
            pre_fa.spec_frames()[slab].state->Slab_0.free_slots@.len() > 0,
            sl == pre_fa.spec_frames()[slab].state->Slab_0.free_slots@.last(),
            0 <= h < pre_self.spec_caches().len(),
            0 <= j < pre_self.spec_caches()[h].len(),
        ensures
            pre_self.spec_caches()[h][j] != sl,
    {
        let s2 = pre_self.spec_caches()[h][j] as int;
        assert(pre_self.slot_outstanding(&pre_fa, s2));
        let o = pre_self.owner_of(&pre_fa, s2);
        let info0 = pre_fa.spec_frames()[slab].state->Slab_0;
        assert(info0.free_slots@.contains(sl));
        if o == slab {
            assert(!info0.free_slots@.contains(s2 as usize));
        } else {
            // Slots of different pages have different addresses.
            let b = BASE_SIZE as int;
            let ram0 = pre_fa.spec_map().ram.start.0 as int;
            assert(pre_self.slot_in_page(&pre_fa, o, s2));
            assert(pre_self.slot_in_page(&pre_fa, slab, sl as int));
            if s2 == sl as int {
                let offo = s2 - ram0;
                vstd::arithmetic::div_mod::lemma_fundamental_div_mod_converse(
                    offo,
                    b,
                    o,
                    offo - o * b,
                );
                vstd::arithmetic::div_mod::lemma_fundamental_div_mod_converse(
                    offo,
                    b,
                    slab,
                    offo - slab * b,
                );
                assert(false);
            }
        }
    }

    /// Putting a checked-out slab that still has free and used slots back
    /// on the partial list restores the linked state.
    proof fn lemma_put_back_partial(pre: Self, post: Self, fa: FrameAllocator, slab: usize)
        requires
            pre.wf_own(),
            pre.linked_except(&fa, slab as int),
            pre.slab_ok(&fa, slab as int),
            0 < fa.spec_frames()[slab as int].state->Slab_0.in_use_count
                < pre.spec_slots_per_slab(),
            post.spec_partial() == seq![slab].add(pre.spec_partial()),
            post.spec_empty() == pre.spec_empty(),
            post.spec_caches() == pre.spec_caches(),
            post.spec_object_size() == pre.spec_object_size(),
            post.spec_slots_per_slab() == pre.spec_slots_per_slab(),
        ensures
            post.wf_own(),
            post.wf_linked(&fa),
    {
        assert forall|j: int| 0 <= j < post.spec_partial().len() implies {
            let i = #[trigger] post.spec_partial()[j] as int;
            &&& post.slab_ok(&fa, i)
            &&& 0 < fa.spec_frames()[i].state->Slab_0.in_use_count
                < post.spec_slots_per_slab()
        } by {
            if j > 0 {
                assert(post.spec_partial()[j] == pre.spec_partial()[j - 1]);
            }
        }
        assert forall|j1: int, j2: int|
            0 <= j1 < post.spec_partial().len() && 0 <= j2 < post.spec_partial().len()
                && j1 != j2
            implies #[trigger] post.spec_partial()[j1] != #[trigger] post.spec_partial()[j2] by {
            if j1 == 0 {
                assert(post.spec_partial()[j2] == pre.spec_partial()[j2 - 1]);
            } else if j2 == 0 {
                assert(post.spec_partial()[j1] == pre.spec_partial()[j1 - 1]);
            } else {
                assert(post.spec_partial()[j1] == pre.spec_partial()[j1 - 1]);
                assert(post.spec_partial()[j2] == pre.spec_partial()[j2 - 1]);
            }
        }
        assert forall|i: int| #[trigger] post.is_my_slab(&fa, i)
            && 0 < fa.spec_frames()[i].state->Slab_0.in_use_count < post.spec_slots_per_slab()
            implies post.spec_partial().contains(i as usize) by {
            if i == slab as int {
                assert(post.spec_partial()[0] == slab);
            } else {
                assert(pre.is_my_slab(&fa, i));
                assert(pre.spec_partial().contains(i as usize));
                let p = choose|p: int|
                    0 <= p < pre.spec_partial().len() && pre.spec_partial()[p] == i as usize;
                assert(post.spec_partial()[p + 1] == i as usize);
            }
        }
        assert forall|j: int| 0 <= j < post.spec_empty().len() implies {
            let i = #[trigger] post.spec_empty()[j] as int;
            &&& post.slab_ok(&fa, i)
            &&& fa.spec_frames()[i].state->Slab_0.in_use_count == 0
        } by {
            let i = post.spec_empty()[j] as int;
            assert(pre.spec_empty()[j] == post.spec_empty()[j]);
            assert(pre.slab_ok(&fa, i));
        }
        assert forall|i: int| post.is_my_slab(&fa, i) implies #[trigger] post.slab_ok(
            &fa,
            i,
        ) by {
            assert(pre.is_my_slab(&fa, i));
            assert(pre.slab_ok(&fa, i));
        }
        assert forall|i: int| post.is_my_slab(&fa, i)
            && #[trigger] fa.spec_frames()[i].state->Slab_0.in_use_count == 0
            implies post.spec_empty().contains(i as usize) by {
            assert(pre.is_my_slab(&fa, i));
            assert(i != slab as int);
        }
        assert forall|h: int, j: int|
            0 <= h < post.spec_caches().len() && 0 <= j < post.spec_caches()[h].len()
            implies post.slot_outstanding(&fa, #[trigger] post.spec_caches()[h][j] as int) by {
            assert(pre.slot_outstanding(&fa, pre.spec_caches()[h][j] as int));
        }
    }

    /// A fully used checked-out slab may simply stay unlisted.
    proof fn lemma_leave_unlisted(&self, fa: FrameAllocator, slab: int)
        requires
            self.wf_own(),
            self.linked_except(&fa, slab),
            self.slab_ok(&fa, slab),
            fa.spec_frames()[slab].state->Slab_0.free_slots@.len() == 0,
        ensures
            self.wf_linked(&fa),
    {
    }

    /// No hart cache of this class holds slot `s`.
    pub open spec fn slot_uncached(&self, s: usize) -> bool {
        forall|h: int, j: int|
            0 <= h < self.spec_caches().len() && 0 <= j < self.spec_caches()[h].len()
                ==> #[trigger] self.spec_caches()[h][j] != s
    }

    /// Returns a checked-out slot to the class: it goes to the executing
    /// hart's cache while there is room; otherwise it is threaded back
    /// onto its owning slab, moving the slab between the lists as its
    /// fill state changes, and releasing the oldest warm slab to the
    /// buddy allocator when the cap is reached.
    #[verifier::rlimit(100)]
    #[verifier::spinoff_prover]
    pub fn dealloc(&mut self, fa: &mut FrameAllocator, hart: usize, ptr: usize)
        requires
            old(self).wf_own(),
            old(self).wf_linked(&*old(fa)),
            old(fa).wf(),
            hart < MAX_HARTS,
            old(self).slot_outstanding(&*old(fa), ptr as int),
            old(self).slot_uncached(ptr),
        ensures
            final(fa).wf(),
            final(self).wf_own(),
            final(self).wf_linked(&*final(fa)),
            final(fa).spec_map() == old(fa).spec_map(),
            final(fa).spec_orders() == old(fa).spec_orders(),
            final(self).spec_object_size() == old(self).spec_object_size(),
            final(self).spec_slots_per_slab() == old(self).spec_slots_per_slab(),
            forall|h: int| 0 <= h < MAX_HARTS
                ==> final(self).spec_cache_target(h) == old(self).spec_cache_target(h),
            old(self).spec_caches()[hart as int].len()
                < old(self).spec_cache_target(hart as int) ==> ({
                // While the hart cache has room, the slot parks there and
                // nothing else moves.
                &&& final(self).spec_caches() == old(self).spec_caches().update(
                    hart as int,
                    seq![ptr].add(old(self).spec_caches()[hart as int]),
                )
                &&& final(self).spec_partial() == old(self).spec_partial()
                &&& final(self).spec_empty() == old(self).spec_empty()
                &&& FrameAllocator::same_state(*final(fa), *old(fa))
            }),
            old(self).spec_caches()[hart as int].len()
                >= old(self).spec_cache_target(hart as int) ==> ({
                // With a full cache the slot is threaded back onto its
                // owning slab's free stack.
                let o = old(self).owner_of(&*old(fa), ptr as int);
                &&& final(fa).spec_frames()[o].state is Slab
                &&& final(fa).spec_frames()[o].state->Slab_0.free_slots@
                    == old(fa).spec_frames()[o].state->Slab_0.free_slots@.push(ptr)
                &&& final(fa).spec_frames()[o].state->Slab_0.in_use_count
                    == old(fa).spec_frames()[o].state->Slab_0.in_use_count - 1
                &&& final(self).spec_caches() == old(self).spec_caches()
            }),
            ({
                // Conservation ledger: the slot either parks in a cache
                // (census and buddy bytes untouched), or rejoins its
                // slab's free stack, possibly releasing a whole warm page
                // whose slots leave the census as its bytes rejoin the
                // buddy free pool.
                let n = old(fa).spec_frames().len() as int;
                let sz = old(self).spec_object_size();
                let cfs0 = class_free_slots(&*old(fa), sz, n);
                let cfs1 = class_free_slots(&*final(fa), sz, n);
                let bytes0 = old(fa).free_list_bytes() + old(fa).free_cache_bytes();
                let bytes1 = final(fa).free_list_bytes() + final(fa).free_cache_bytes();
                ||| cfs1 == cfs0 && bytes1 == bytes0
                ||| cfs1 == cfs0 + 1 && bytes1 == bytes0
                ||| cfs1 == cfs0 + 1 - old(self).spec_slots_per_slab()
                    && bytes1 == bytes0 + BASE_SIZE
            }),
    {
        let full = {
            let c = &self.hart_caches[hart];
            c.is_full()
        };
        if !full {
            let ghost pre_push = *self;
            {
                let c = &mut self.hart_caches[hart];
                c.push(ptr);
            }
            proof {
                Self::lemma_lists_transfer(pre_push, *self, *fa);
                assert(self.spec_caches() =~= pre_push.spec_caches().update(
                    hart as int,
                    seq![ptr].add(pre_push.spec_caches()[hart as int]),
                ));
                assert forall|h: int, j: int|
                    0 <= h < self.spec_caches().len() && 0 <= j < self.spec_caches()[h].len()
                    implies self.slot_outstanding(
                    &*fa,
                    #[trigger] self.spec_caches()[h][j] as int,
                ) by {
                    if !(h == hart as int && j == 0) {
                        let pj: int = if h == hart as int { j - 1 } else { j };
                        assert(self.spec_caches()[h][j] == pre_push.spec_caches()[h][pj]);
                    }
                }
                assert forall|h1: int, j1: int, h2: int, j2: int|
                    0 <= h1 < self.spec_caches().len() && 0 <= j1 < self.spec_caches()[h1].len()
                        && 0 <= h2 < self.spec_caches().len()
                        && 0 <= j2 < self.spec_caches()[h2].len() && (h1 != h2 || j1 != j2)
                    implies #[trigger] self.spec_caches()[h1][j1]
                        != #[trigger] self.spec_caches()[h2][j2] by {
                    if h1 == hart as int && j1 == 0 {
                        if !(h2 == hart as int && j2 == 0) {
                            let p2: int = if h2 == hart as int { j2 - 1 } else { j2 };
                            assert(self.spec_caches()[h2][j2]
                                == pre_push.spec_caches()[h2][p2]);
                        }
                    } else if h2 == hart as int && j2 == 0 {
                        let p1: int = if h1 == hart as int { j1 - 1 } else { j1 };
                        assert(self.spec_caches()[h1][j1] == pre_push.spec_caches()[h1][p1]);
                    } else {
                        let p1: int = if h1 == hart as int { j1 - 1 } else { j1 };
                        let p2: int = if h2 == hart as int { j2 - 1 } else { j2 };
                        assert(self.spec_caches()[h1][j1] == pre_push.spec_caches()[h1][p1]);
                        assert(self.spec_caches()[h2][j2] == pre_push.spec_caches()[h2][p2]);
                    }
                }
                assert forall|h: int| 0 <= h < MAX_HARTS
                    implies self.spec_cache_target(h)
                    == pre_push.spec_cache_target(h) by {
                    if h != hart as int {
                        assert(self.hart_caches@[h] == pre_push.hart_caches@[h]);
                    }
                }
                let n = old(fa).spec_frames().len() as int;
                let sz = old(self).spec_object_size();
                lemma_census_congruent(&*old(fa), &*fa, sz, n);
            }
            return;
        }
        self.release_slot(fa, hart, ptr);
    }

    /// Threads one checked-out slot back onto its owning slab and adjusts
    /// the slab's listing.
    #[verifier::rlimit(100)]
    #[verifier::spinoff_prover]
    fn release_slot(&mut self, fa: &mut FrameAllocator, hart: usize, ptr: usize)
        requires
            old(self).wf_own(),
            old(self).wf_linked(&*old(fa)),
            old(fa).wf(),
            hart < MAX_HARTS,
            old(self).slot_outstanding(&*old(fa), ptr as int),
            old(self).slot_uncached(ptr),
        ensures
            final(fa).wf(),
            final(self).wf_own(),
            final(self).wf_linked(&*final(fa)),
            final(fa).spec_map() == old(fa).spec_map(),
            final(fa).spec_orders() == old(fa).spec_orders(),
            final(self).spec_object_size() == old(self).spec_object_size(),
            final(self).spec_slots_per_slab() == old(self).spec_slots_per_slab(),
            final(self).spec_caches() == old(self).spec_caches(),
            forall|h: int| 0 <= h < MAX_HARTS
                ==> final(self).spec_cache_target(h) == old(self).spec_cache_target(h),
            ({
                let o = old(self).owner_of(&*old(fa), ptr as int);
                &&& final(fa).spec_frames()[o].state is Slab
                &&& final(fa).spec_frames()[o].state->Slab_0.free_slots@
                    == old(fa).spec_frames()[o].state->Slab_0.free_slots@.push(ptr)
                &&& final(fa).spec_frames()[o].state->Slab_0.in_use_count
                    == old(fa).spec_frames()[o].state->Slab_0.in_use_count - 1
            }),
            ({
                // Conservation: the class's free-slot census grows by the
                // returned slot, unless a whole warm page was released, in
                // which case its slots leave the census and the page's
                // bytes reappear in the buddy allocator's free pool.
                let n = old(fa).spec_frames().len() as int;
                let sz = old(self).spec_object_size();
                let cfs0 = class_free_slots(&*old(fa), sz, n);
                let cfs1 = class_free_slots(&*final(fa), sz, n);
                ||| cfs1 == cfs0 + 1 && final(fa).free_list_bytes()
                    + final(fa).free_cache_bytes() == old(fa).free_list_bytes()
                    + old(fa).free_cache_bytes()
                ||| cfs1 == cfs0 + 1 - old(self).spec_slots_per_slab()
                    && final(fa).free_list_bytes() + final(fa).free_cache_bytes()
                    == old(fa).free_list_bytes() + old(fa).free_cache_bytes() + BASE_SIZE
            }),
    {
        let ghost owner_g = old(self).owner_of(&*old(fa), ptr as int);
        proof {
            // The owning page is a consistent slab, so the slot's address
            // lies in RAM and translates back to the owning frame.
            assert(old(self).slab_ok(&*old(fa), owner_g));
            assert(fa.valid_block(owner_g, 0));
            vstd::arithmetic::power2::lemma2_to64();
            assert(fa.spec_map().ram.spec_contains(ptr as int)) by {
                assert(fa.addr_of(owner_g) + pow2(0) * BASE_SIZE
                    <= fa.spec_map().free_memory.spec_end());
            }
        }
        let owner = fa.memory_map().frame_idx_from_address(PhysicalAddress::new(ptr));
        proof {
            let b = BASE_SIZE as int;
            let ram0 = fa.spec_map().ram.start.0 as int;
            let off = ptr as int - ram0;
            assert(fa.addr_of(owner_g) == ram0 + owner_g * b);
            assert(owner_g * b <= off < owner_g * b + b);
            vstd::arithmetic::div_mod::lemma_fundamental_div_mod_converse(
                off,
                b,
                owner_g,
                off - owner_g * b,
            );
            assert(owner as int == owner_g);
        }
        let was_full = {
            let info = fa.frame(owner).slab_info();
            info.in_use_count == self.slots_per_slab
        };
        let in_use_pre = {
            let info = fa.frame(owner).slab_info();
            info.in_use_count
        };
        let ghost pre_fa = *fa;
        fa.slab_push_slot(owner, ptr);
        proof {
            // The returned slot raises the class's free-slot census by
            // one.
            let n = old(fa).spec_frames().len() as int;
            let sz = self.spec_object_size();
            assert forall|y: int| 0 <= y < n && y != owner_g
                implies slab_slot_contrib(&*fa, sz, y)
                == slab_slot_contrib(&*old(fa), sz, y) by {
                assert(fa.spec_frames()[y] == old(fa).spec_frames()[y]);
            }
            lemma_census_update(&*old(fa), &*fa, sz, owner_g, n);
            assert(class_free_slots(&*fa, sz, n)
                == class_free_slots(&*old(fa), sz, n) + 1);
            assert(fa.free_list_bytes() == old(fa).free_list_bytes());
            assert(fa.free_cache_bytes() == old(fa).free_cache_bytes());
            // The slab's bookkeeping stays consistent with the slot back
            // on its stack, and everything else is untouched.
            assert(self.slab_ok(&*fa, owner_g)) by {
                let info0 = pre_fa.spec_frames()[owner_g].state->Slab_0;
                let info2 = fa.spec_frames()[owner_g].state->Slab_0;
                assert(info2.free_slots@ == info0.free_slots@.push(ptr));
                assert forall|q: int| 0 <= q < info2.free_slots@.len()
                    implies self.slot_in_page(&*fa, owner_g, #[trigger] info2.free_slots@[
                    q] as int) by {
                    if q < info0.free_slots@.len() {
                        assert(info2.free_slots@[q] == info0.free_slots@[q]);
                    } else {
                        assert(info2.free_slots@[q] == ptr);
                    }
                }
                assert forall|q1: int, q2: int|
                    0 <= q1 < info2.free_slots@.len() && 0 <= q2 < info2.free_slots@.len()
                        && q1 != q2
                    implies info2.free_slots@[q1] != info2.free_slots@[q2] by {
                    let n0 = info0.free_slots@.len() as int;
                    if q1 == n0 {
                        assert(info2.free_slots@[q2] == info0.free_slots@[q2]);
                        assert(info0.free_slots@.contains(info0.free_slots@[q2]));
                    } else if q2 == n0 {
                        assert(info2.free_slots@[q1] == info0.free_slots@[q1]);
                        assert(info0.free_slots@.contains(info0.free_slots@[q1]));
                    } else {
                        assert(info2.free_slots@[q1] == info0.free_slots@[q1]);
                        assert(info2.free_slots@[q2] == info0.free_slots@[q2]);
                    }
                }
            }
        }
        let in_use_now = in_use_pre - 1;
        if was_full {
            // Fully used before: it was unlisted; now it is partial.
            proof {
                assert(!self.spec_partial().contains(owner)) by {
                    if self.spec_partial().contains(owner) {
                        let j = choose|j: int|
                            0 <= j < self.spec_partial().len()
                                && self.spec_partial()[j] == owner;
                        assert(0 < pre_fa.spec_frames()[owner_g].state->Slab_0.in_use_count
                            < self.spec_slots_per_slab());
                    }
                }
                self.lemma_slab_step(*old(self), pre_fa, *fa, owner_g, ptr);
                assert(self.linked_except(&*fa, owner_g)) by {
                    assert forall|j: int| 0 <= j < self.spec_partial().len() implies {
                        let i = #[trigger] self.spec_partial()[j] as int;
                        &&& i != owner_g
                        &&& self.slab_ok(&*fa, i)
                        &&& 0 < fa.spec_frames()[i].state->Slab_0.in_use_count
                            < self.spec_slots_per_slab()
                    } by {
                        assert(self.spec_partial()[j] != owner);
                        fa.lemma_frames_bound();
                    }
                }
            }
            let ghost pre_put = *self;
            self.partial_slabs.push_front(owner);
            proof {
                Self::lemma_put_back_partial(pre_put, *self, *fa, owner);
            }
            return;
        }
        if in_use_now > 0 {
            // Still partial: its listing is unchanged.
            proof {
                self.lemma_slab_step(*old(self), pre_fa, *fa, owner_g, ptr);
                assert(self.spec_partial().contains(owner)) by {
                    assert(old(self).is_my_slab(&pre_fa, owner_g));
                    assert(0 < pre_fa.spec_frames()[owner_g].state->Slab_0.in_use_count
                        < self.spec_slots_per_slab());
                }
                assert forall|j: int| 0 <= j < self.spec_partial().len() implies {
                    let i = #[trigger] self.spec_partial()[j] as int;
                    &&& self.slab_ok(&*fa, i)
                    &&& 0 < fa.spec_frames()[i].state->Slab_0.in_use_count
                        < self.spec_slots_per_slab()
                } by {
                    let i = self.spec_partial()[j] as int;
                    if i == owner_g {
                        assert(self.slab_ok(&*fa, owner_g));
                        assert(fa.spec_frames()[owner_g].state->Slab_0.free_slots@.len()
                            >= 1);
                    }
                }
                assert forall|i: int| #[trigger] self.is_my_slab(&*fa, i)
                    && 0 < fa.spec_frames()[i].state->Slab_0.in_use_count
                        < self.spec_slots_per_slab()
                    implies self.spec_partial().contains(i as usize) by {
                    if i == owner_g {
                        fa.lemma_frames_bound();
                        assert(self.spec_partial().contains(owner));
                    }
                }
                assert forall|i: int| self.is_my_slab(&*fa, i)
                    && #[trigger] fa.spec_frames()[i].state->Slab_0.in_use_count == 0
                    implies self.spec_empty().contains(i as usize) by {
                    assert(i != owner_g);
                }
            }
            return;
        }
        // The slab is now fully free: move it from partial to empty, and
        // release the oldest warm slab once the cap is hit.
        proof {
            self.lemma_slab_step(*old(self), pre_fa, *fa, owner_g, ptr);
            assert(self.spec_partial().contains(owner)) by {
                assert(old(self).is_my_slab(&pre_fa, owner_g));
                assert(0 < pre_fa.spec_frames()[owner_g].state->Slab_0.in_use_count
                    < self.spec_slots_per_slab());
            }
        }
        let mut p: usize = 0;
        let ghost target = self.spec_partial();
        while p < self.partial_slabs.len() && *self.partial_slabs.get(p) != owner
            invariant
                self.spec_partial() == target,
                p <= target.len(),
                target.contains(owner),
                forall|q: int| 0 <= q < p ==> target[q] != owner,
            decreases target.len() - p,
        {
            p = p + 1;
        }
        proof {
            if p >= target.len() {
                let w = choose|w: int| 0 <= w < target.len() && target[w] == owner;
                assert(target[w] != owner);
                assert(false);
            }
        }
        let ghost before_rm = *self;
        self.partial_slabs.remove_at(p);
        self.empty_slabs.push_front(owner);
        proof {
            Self::lemma_moved_to_empty(before_rm, *self, *fa, owner, p as int);
        }
        if self.empty_slabs.len() >= EMPTY_SLABS_CAP {
            let ghost before_free = *self;
            let ghost fa_before_free = *fa;
            let oldest = match self.empty_slabs.pop_back() {
                Some(x) => x,
                None => vstd::pervasive::unreached(),
            };
            proof {
                assert(oldest == before_free.spec_empty().last());
                assert(before_free.slab_ok(&*fa, oldest as int));
                assert(self.slab_ok(&*fa, oldest as int));
                assert(fa.valid_block(oldest as int, 0));
                vstd::arithmetic::power2::lemma2_to64();
            }
            let a = fa.memory_map().frame_ref_to_address(oldest);
            proof {
                let b = BASE_SIZE as int;
                let ram0 = fa.spec_map().ram.start.0 as int;
                vstd::arithmetic::div_mod::lemma_fundamental_div_mod(a.0 - ram0, b);
                assert((a.0 - ram0) / b == oldest as int) by (nonlinear_arith)
                    requires a.0 - ram0 == (oldest as int) * b && b > 0 && oldest as int >= 0,
                ;
            }
            fa.dealloc(hart, a, BASE_SIZE, BASE_SIZE);
            proof {
                Self::lemma_released_oldest(before_free, *self, fa_before_free, *fa, oldest);
                // The released page takes its full slot stack out of the
                // census; its bytes reappear in the buddy free pool.
                let n = old(fa).spec_frames().len() as int;
                let sz = self.spec_object_size();
                vstd::arithmetic::power2::lemma2_to64();
                assert forall|y: int| 0 <= y < n && y != oldest as int
                    implies slab_slot_contrib(&*fa, sz, y)
                    == slab_slot_contrib(&fa_before_free, sz, y) by {
                    if fa.spec_allocated().dom().contains(y) {
                        assert(fa.spec_frames()[y] == fa_before_free.spec_frames()[y]);
                    }
                }
                assert(slab_slot_contrib(&*fa, sz, oldest as int) == 0);
                assert(slab_slot_contrib(&fa_before_free, sz, oldest as int)
                    == old(self).spec_slots_per_slab()) by {
                    assert(before_free.slab_ok(&fa_before_free, oldest as int));
                    assert(fa_before_free.spec_frames()[
                        oldest as int].state->Slab_0.in_use_count == 0);
                }
                lemma_census_update(&fa_before_free, &*fa, sz, oldest as int, n);
            }
        }
    }

    /// Threading one slot back into its slab preserves every clause that
    /// does not concern the owning slab's own listing.
    proof fn lemma_slab_step(
        &self,
        pre_self: Self,
        pre_fa: FrameAllocator,
        fa: FrameAllocator,
        owner: int,
        ptr: usize,
    )
        requires
            pre_self.wf_own(),
            pre_self.wf_linked(&pre_fa),
            pre_self.slot_outstanding(&pre_fa, ptr as int),
            owner == pre_self.owner_of(&pre_fa, ptr as int),
            self.slab_ok(&fa, owner),
            pre_self.slot_uncached(ptr),
            self.spec_partial() == pre_self.spec_partial(),
            self.spec_empty() == pre_self.spec_empty(),
            self.spec_caches() == pre_self.spec_caches(),
            self.spec_object_size() == pre_self.spec_object_size(),
            self.spec_slots_per_slab() == pre_self.spec_slots_per_slab(),
            fa.spec_map() == pre_fa.spec_map(),
            fa.spec_allocated() == pre_fa.spec_allocated(),
            fa.spec_frames().len() == pre_fa.spec_frames().len(),
            0 <= owner < pre_fa.spec_frames().len(),
            forall|x: int| 0 <= x < pre_fa.spec_frames().len() && x != owner
                ==> fa.spec_frames()[x] == pre_fa.spec_frames()[x],
            fa.spec_frames()[owner].state is Slab,
            fa.spec_frames()[owner].state->Slab_0.free_slots@
                == pre_fa.spec_frames()[owner].state->Slab_0.free_slots@.push(ptr),
            fa.spec_frames()[owner].state->Slab_0.in_use_count
                == pre_fa.spec_frames()[owner].state->Slab_0.in_use_count - 1,
        ensures
            self.linked_partial_except(&fa, owner),
            self.slab_ok(&fa, owner),
    {
        assert forall|j: int| 0 <= j < self.spec_partial().len()
            && #[trigger] self.spec_partial()[j] as int != owner implies {
            let i = self.spec_partial()[j] as int;
            &&& self.slab_ok(&fa, i)
            &&& 0 < fa.spec_frames()[i].state->Slab_0.in_use_count
                < self.spec_slots_per_slab()
        } by {
            let i = self.spec_partial()[j] as int;
            assert(pre_self.slab_ok(&pre_fa, i));
        }
        assert forall|j: int| 0 <= j < self.spec_empty().len() implies {
            let i = #[trigger] self.spec_empty()[j] as int;
            &&& i != owner
            &&& self.slab_ok(&fa, i)
            &&& fa.spec_frames()[i].state->Slab_0.in_use_count == 0
        } by {
            let i = self.spec_empty()[j] as int;
            assert(pre_self.slab_ok(&pre_fa, i));
            assert(pre_fa.spec_frames()[i].state->Slab_0.in_use_count == 0);
            assert(pre_fa.spec_frames()[owner].state->Slab_0.in_use_count >= 1);
        }
        assert forall|i: int| self.is_my_slab(&fa, i) implies #[trigger] self.slab_ok(
            &fa,
            i,
        ) by {
            if i != owner {
                assert(pre_self.is_my_slab(&pre_fa, i));
                assert(pre_self.slab_ok(&pre_fa, i));
            }
        }
        assert forall|i: int| self.is_my_slab(&fa, i) && i != owner
            && #[trigger] fa.spec_frames()[i].state->Slab_0.in_use_count == 0
            implies self.spec_empty().contains(i as usize) by {
            assert(pre_self.is_my_slab(&pre_fa, i));
        }
        assert forall|i: int| #[trigger] self.is_my_slab(&fa, i) && i != owner
            && 0 < fa.spec_frames()[i].state->Slab_0.in_use_count < self.spec_slots_per_slab()
            implies self.spec_partial().contains(i as usize) by {
            assert(pre_self.is_my_slab(&pre_fa, i));
        }
        assert forall|h: int, j: int|
            0 <= h < self.spec_caches().len() && 0 <= j < self.spec_caches()[h].len()
            implies self.slot_outstanding(&fa, #[trigger] self.spec_caches()[h][j] as int) by {
            let s2 = self.spec_caches()[h][j] as int;
            assert(pre_self.slot_outstanding(&pre_fa, s2));
            let o = pre_self.owner_of(&pre_fa, s2);
            if o == owner {
                let info0 = pre_fa.spec_frames()[owner].state->Slab_0;
                let info2 = fa.spec_frames()[owner].state->Slab_0;
                assert(s2 != ptr as int);
                assert(!info2.free_slots@.contains(s2 as usize)) by {
                    if info2.free_slots@.contains(s2 as usize) {
                        let q = choose|q: int|
                            0 <= q < info2.free_slots@.len()
                                && info2.free_slots@[q] == s2 as usize;
                        if q < info0.free_slots@.len() {
                            assert(info0.free_slots@.contains(s2 as usize));
                        } else {
                            assert(info2.free_slots@[q] == ptr);
                        }
                    }
                }
                assert(info2.in_use_count >= 1) by {
                    // Slot `s2` is still checked out of this slab alongside
                    // `ptr`, so at least two slots were in use before the
                    // return: the free stack plus both checked-out slots
                    // are distinct in-page slots, and a page only has
                    // `slots_per_slab` of those.
                    assert(info0.in_use_count >= 1);
                    if info0.in_use_count == 1 {
                        let f2 = info0.free_slots@.push(ptr).push(s2 as usize);
                        assert(f2.no_duplicates()) by {
                            assert forall|q1: int, q2: int|
                                0 <= q1 < f2.len() && 0 <= q2 < f2.len() && q1 != q2
                                implies f2[q1] != f2[q2] by {
                                let n0 = info0.free_slots@.len() as int;
                                if q1 < n0 && q2 < n0 {
                                } else if q1 < n0 {
                                    assert(info0.free_slots@.contains(
                                        info0.free_slots@[q1]));
                                } else if q2 < n0 {
                                    assert(info0.free_slots@.contains(
                                        info0.free_slots@[q2]));
                                }
                            }
                        }
                        assert forall|q: int| 0 <= q < f2.len()
                            implies pre_self.slot_in_page(&pre_fa, owner, #[trigger] f2[
                            q] as int) by {
                            let n0 = info0.free_slots@.len() as int;
                            if q < n0 {
                                assert(f2[q] == info0.free_slots@[q]);
                            }
                        }
                        pre_self.lemma_slots_pigeonhole(pre_fa, owner, f2);
                        assert(false);
                    }
                }
            }
        }
    }

    /// A page has room for only `slots_per_slab` distinct slot addresses.
    proof fn lemma_slots_pigeonhole(&self, fa: FrameAllocator, i: int, f2: Seq<usize>)
        requires
            self.wf_own(),
            f2.no_duplicates(),
            forall|q: int| 0 <= q < f2.len()
                ==> self.slot_in_page(&fa, i, #[trigger] f2[q] as int),
        ensures
            f2.len() <= self.spec_slots_per_slab(),
    {
        let base = fa.addr_of(i);
        let obj = self.spec_object_size() as int;
        let n = self.spec_slots_per_slab() as int;
        lemma_fundamental_div_mod(BASE_SIZE as int, obj);
        let ts = f2.map_values(|v: usize| (v as int - base) / obj);
        // Each slot address is its slot number scaled; distinct addresses
        // give distinct slot numbers inside the page.
        assert forall|q: int| 0 <= q < ts.len() implies 0 <= #[trigger] ts[q] < n by {
            let v = f2[q] as int;
            lemma_fundamental_div_mod(v - base, obj);
            assert(v - base < n * obj) by (nonlinear_arith)
                requires v - base < BASE_SIZE as int && BASE_SIZE as int == n * obj || true,
                    (self.spec_slots_per_slab() as int) * obj == BASE_SIZE as int
                        || obj * (self.spec_slots_per_slab() as int) == BASE_SIZE as int,
                    v - base < BASE_SIZE as int,
                    n == self.spec_slots_per_slab() as int,
                    obj > 0,
                    BASE_SIZE as int == obj * ((BASE_SIZE as int) / obj),
                    (BASE_SIZE as int) % obj == 0,
                    n == (BASE_SIZE as int) / obj,
            ;
            assert((v - base) / obj < n) by (nonlinear_arith)
                requires v - base < n * obj && obj > 0 && v - base >= 0
                    && v - base == obj * ((v - base) / obj) + (v - base) % obj
                    && 0 <= (v - base) % obj,
            ;
        }
        assert(ts.no_duplicates()) by {
            assert forall|q1: int, q2: int|
                0 <= q1 < ts.len() && 0 <= q2 < ts.len() && q1 != q2
                implies ts[q1] != ts[q2] by {
                let v1 = f2[q1] as int;
                let v2 = f2[q2] as int;
                lemma_fundamental_div_mod(v1 - base, obj);
                lemma_fundamental_div_mod(v2 - base, obj);
            }
        }
        ts.unique_seq_to_set();
        let rng = vstd::set_lib::set_int_range(0, n);
        vstd::set_lib::lemma_int_range(0, n);
        assert(ts.to_set().subset_of(rng)) by {
            assert forall|e: int| ts.to_set().contains(e) implies rng.contains(e) by {
                assert(ts.contains(e));
                let q = choose|q: int| 0 <= q < ts.len() && ts[q] == e;
                assert(0 <= ts[q] < n);
            }
        }
        vstd::set_lib::lemma_len_subset(ts.to_set(), rng);
    }

    /// Moving the now-empty slab from the partial to the empty list keeps
    /// everything but the cap, which the caller restores.
    proof fn lemma_moved_to_empty(
        pre: Self,
        post: Self,
        fa: FrameAllocator,
        owner: usize,
        p: int,
    )
        requires
            pre.wf_own(),
            pre.linked_partial_except(&fa, owner as int),
            pre.slab_ok(&fa, owner as int),
            fa.spec_frames()[owner as int].state->Slab_0.in_use_count == 0,
            0 <= p < pre.spec_partial().len(),
            pre.spec_partial()[p] == owner,
            post.spec_partial() == pre.spec_partial().remove(p),
            post.spec_empty() == seq![owner].add(pre.spec_empty()),
            post.spec_caches() == pre.spec_caches(),
            post.spec_object_size() == pre.spec_object_size(),
            post.spec_slots_per_slab() == pre.spec_slots_per_slab(),
        ensures
            post.wf_own(),
            post.linked_nocap(&fa),
            post.spec_empty().len() == pre.spec_empty().len() + 1,
    {
        assert forall|j: int| 0 <= j < post.spec_partial().len() implies {
            let i = #[trigger] post.spec_partial()[j] as int;
            &&& post.slab_ok(&fa, i)
            &&& 0 < fa.spec_frames()[i].state->Slab_0.in_use_count
                < post.spec_slots_per_slab()
        } by {
            let pj: int = if j < p { j } else { j + 1 };
            assert(post.spec_partial()[j] == pre.spec_partial()[pj]);
        }
        assert forall|j1: int, j2: int|
            0 <= j1 < post.spec_partial().len() && 0 <= j2 < post.spec_partial().len()
                && j1 != j2
            implies #[trigger] post.spec_partial()[j1] != #[trigger] post.spec_partial()[
            j2] by {
            let p1: int = if j1 < p { j1 } else { j1 + 1 };
            let p2: int = if j2 < p { j2 } else { j2 + 1 };
            assert(post.spec_partial()[j1] == pre.spec_partial()[p1]);
            assert(post.spec_partial()[j2] == pre.spec_partial()[p2]);
        }
        assert forall|j: int| 0 <= j < post.spec_empty().len() implies {
            let i = #[trigger] post.spec_empty()[j] as int;
            &&& post.slab_ok(&fa, i)
            &&& fa.spec_frames()[i].state->Slab_0.in_use_count == 0
        } by {
            if j > 0 {
                assert(post.spec_empty()[j] == pre.spec_empty()[j - 1]);
            }
        }
        assert forall|j1: int, j2: int|
            0 <= j1 < post.spec_empty().len() && 0 <= j2 < post.spec_empty().len() && j1 != j2
            implies #[trigger] post.spec_empty()[j1] != #[trigger] post.spec_empty()[j2] by {
            if j1 == 0 {
                assert(post.spec_empty()[j2] == pre.spec_empty()[j2 - 1]);
            } else if j2 == 0 {
                assert(post.spec_empty()[j1] == pre.spec_empty()[j1 - 1]);
            } else {
                assert(post.spec_empty()[j1] == pre.spec_empty()[j1 - 1]);
                assert(post.spec_empty()[j2] == pre.spec_empty()[j2 - 1]);
            }
        }
        assert forall|i: int| post.is_my_slab(&fa, i)
            && #[trigger] fa.spec_frames()[i].state->Slab_0.in_use_count == 0
            implies post.spec_empty().contains(i as usize) by {
            if i == owner as int {
                assert(post.spec_empty()[0] == owner);
            } else {
                assert(pre.is_my_slab(&fa, i));
                fa.lemma_frames_bound();
                assert(0 <= i <= usize::MAX);
                assert(pre.spec_empty().contains(i as usize));
                let q = choose|q: int|
                    0 <= q < pre.spec_empty().len() && pre.spec_empty()[q] == i as usize;
                assert(post.spec_empty()[q + 1] == i as usize);
            }
        }
        assert forall|i: int| post.is_my_slab(&fa, i) implies #[trigger] post.slab_ok(
            &fa,
            i,
        ) by {
            assert(pre.is_my_slab(&fa, i));
            assert(pre.slab_ok(&fa, i));
        }
        assert forall|h: int, j: int|
            0 <= h < post.spec_caches().len() && 0 <= j < post.spec_caches()[h].len()
            implies post.slot_outstanding(&fa, #[trigger] post.spec_caches()[h][j] as int) by {
            assert(pre.slot_outstanding(&fa, pre.spec_caches()[h][j] as int));
        }
        assert forall|i: int| #[trigger] post.is_my_slab(&fa, i)
            && 0 < fa.spec_frames()[i].state->Slab_0.in_use_count < post.spec_slots_per_slab()
            implies post.spec_partial().contains(i as usize) by {
            assert(i != owner as int);
            assert(pre.is_my_slab(&fa, i));
            fa.lemma_frames_bound();
            assert(0 <= i <= usize::MAX);
            assert(pre.spec_partial().contains(i as usize));
            let q = choose|q: int|
                0 <= q < pre.spec_partial().len() && pre.spec_partial()[q] == i as usize;
            assert(q != p);
            let nq: int = if q < p { q } else { q - 1 };
            assert(post.spec_partial()[nq] == i as usize);
        }
    }

    /// Releasing the oldest warm slab to the buddy allocator restores the
    /// cap and keeps the rest linked: the released page no longer serves
    /// this class, and it had no slots checked out.
    proof fn lemma_released_oldest(
        pre_self: Self,
        post_self: Self,
        pre_fa: FrameAllocator,
        fa: FrameAllocator,
        oldest: usize,
    )
        requires
            pre_self.wf_own(),
            pre_self.linked_nocap(&pre_fa),
            pre_self.spec_empty().len() >= 1,
            pre_self.spec_empty().len() <= EMPTY_SLABS_CAP,
            oldest == pre_self.spec_empty().last(),
            post_self.spec_empty() == pre_self.spec_empty().drop_last(),
            post_self.spec_partial() == pre_self.spec_partial(),
            post_self.spec_caches() == pre_self.spec_caches(),
            post_self.spec_object_size() == pre_self.spec_object_size(),
            post_self.spec_slots_per_slab() == pre_self.spec_slots_per_slab(),
            fa.spec_map() == pre_fa.spec_map(),
            fa.spec_frames().len() == pre_fa.spec_frames().len(),
            fa.spec_allocated() == pre_fa.spec_allocated().remove(oldest as int),
            forall|x: int| fa.spec_allocated().dom().contains(x)
                ==> fa.spec_frames()[x] == pre_fa.spec_frames()[x],
        ensures
            post_self.wf_own(),
            post_self.wf_linked(&fa),
    {
        let last = pre_self.spec_empty().len() - 1;
        assert(pre_self.slab_ok(&pre_fa, oldest as int));
        assert forall|j: int| 0 <= j < post_self.spec_partial().len() implies {
            let i = #[trigger] post_self.spec_partial()[j] as int;
            &&& post_self.slab_ok(&fa, i)
            &&& 0 < fa.spec_frames()[i].state->Slab_0.in_use_count
                < post_self.spec_slots_per_slab()
        } by {
            let i = post_self.spec_partial()[j] as int;
            assert(pre_self.slab_ok(&pre_fa, i));
            assert(i != oldest as int);
            assert(fa.spec_allocated().dom().contains(i));
        }
        assert forall|j: int| 0 <= j < post_self.spec_empty().len() implies {
            let i = #[trigger] post_self.spec_empty()[j] as int;
            &&& post_self.slab_ok(&fa, i)
            &&& fa.spec_frames()[i].state->Slab_0.in_use_count == 0
        } by {
            assert(post_self.spec_empty()[j] == pre_self.spec_empty()[j]);
            let i = pre_self.spec_empty()[j] as int;
            assert(pre_self.slab_ok(&pre_fa, i));
            assert(pre_self.spec_empty()[j] != pre_self.spec_empty()[last]);
            assert(fa.spec_allocated().dom().contains(i));
        }
        assert forall|i: int| post_self.is_my_slab(&fa, i)
            implies #[trigger] post_self.slab_ok(&fa, i) by {
            assert(i != oldest as int);
            assert(pre_fa.spec_allocated().dom().contains(i));
            assert(fa.spec_frames()[i] == pre_fa.spec_frames()[i]);
            assert(pre_self.is_my_slab(&pre_fa, i));
            assert(pre_self.slab_ok(&pre_fa, i));
        }
        assert forall|i: int| post_self.is_my_slab(&fa, i)
            && #[trigger] fa.spec_frames()[i].state->Slab_0.in_use_count == 0
            implies post_self.spec_empty().contains(i as usize) by {
            assert(i != oldest as int);
            assert(fa.spec_frames()[i] == pre_fa.spec_frames()[i]);
            assert(pre_self.is_my_slab(&pre_fa, i));
            pre_fa.lemma_frames_bound();
            assert(0 <= i <= usize::MAX);
            assert(pre_self.spec_empty().contains(i as usize));
            let q = choose|q: int|
                0 <= q < pre_self.spec_empty().len() && pre_self.spec_empty()[q] == i as usize;
            assert(q != last);
            assert(post_self.spec_empty()[q] == i as usize);
        }
        assert forall|i: int| #[trigger] post_self.is_my_slab(&fa, i)
            && 0 < fa.spec_frames()[i].state->Slab_0.in_use_count
                < post_self.spec_slots_per_slab()
            implies post_self.spec_partial().contains(i as usize) by {
            assert(i != oldest as int);
            assert(fa.spec_frames()[i] == pre_fa.spec_frames()[i]);
            assert(pre_self.is_my_slab(&pre_fa, i));
        }
        assert forall|h: int, j: int|
            0 <= h < post_self.spec_caches().len() && 0 <= j < post_self.spec_caches()[h].len()
            implies post_self.slot_outstanding(
            &fa,
            #[trigger] post_self.spec_caches()[h][j] as int,
        ) by {
            let s2 = post_self.spec_caches()[h][j] as int;
            assert(pre_self.slot_outstanding(&pre_fa, s2));
            let o = pre_self.owner_of(&pre_fa, s2);
            // The released page had no slots in use, so it owns no cached
            // slot.
            assert(o != oldest as int) by {
                if o == oldest as int {
                    assert(pre_fa.spec_frames()[o].state->Slab_0.in_use_count >= 1);
                    assert(pre_fa.spec_frames()[oldest as int].state->Slab_0.in_use_count
                        == 0);
                }
            }
            assert(fa.spec_allocated().dom().contains(o));
            assert(fa.spec_frames()[o] == pre_fa.spec_frames()[o]);
            assert(post_self.owner_of(&fa, s2) == o);
        }
    }

    /// Pulls slots from the class's slabs into the executing hart's cache:
    /// partial slabs first, then warm empty slabs, then fresh pages. A
    /// drained slab goes back on the partial list only while it still has
    /// free slots. Fails only when a fresh page cannot be had.
    #[verifier::rlimit(100)]
    #[verifier::spinoff_prover]
    pub fn refill_hart_cache(&mut self, fa: &mut FrameAllocator, hart: usize) -> (r: Result<
        (),
        (),
    >)
        requires
            old(self).wf_own(),
            old(self).wf_linked(&*old(fa)),
            old(fa).wf(),
            hart < MAX_HARTS,
        ensures
            final(fa).wf(),
            final(self).wf_own(),
            final(self).wf_linked(&*final(fa)),
            final(fa).spec_map() == old(fa).spec_map(),
            final(fa).spec_orders() == old(fa).spec_orders(),
            final(self).spec_object_size() == old(self).spec_object_size(),
            final(self).spec_slots_per_slab() == old(self).spec_slots_per_slab(),
            forall|h: int| 0 <= h < MAX_HARTS
                ==> final(self).spec_cache_target(h) == old(self).spec_cache_target(h),
            r is Ok ==> final(self).spec_caches()[hart as int].len()
                == old(self).spec_caches()[hart as int].len()
                + <Greedy as crate::hart_cache::CacheStrategy>::spec_refill_amount(
                old(self).spec_cache_target(hart as int) as int,
                old(self).spec_caches()[hart as int].len() as int,
            ),
            r is Err ==> ({
                // Every source is dry at the end: both slab lists and the
                // buddy allocator's page supply.
                &&& final(self).spec_partial().len() == 0
                &&& final(self).spec_empty().len() == 0
                &&& final(fa).spec_caches()[hart as int].len() == 0
                &&& crate::frame_allocator::spec_first_free(final(fa).spec_lists(), 0)
                    >= final(fa).spec_lists().len()
            }),
            ({
                // If every source was already dry and anything was asked
                // for, the refill fails.
                &&& old(self).spec_partial().len() == 0
                &&& old(self).spec_empty().len() == 0
                &&& old(fa).spec_caches()[hart as int].len() == 0
                &&& crate::frame_allocator::spec_first_free(old(fa).spec_lists(), 0)
                    >= old(fa).spec_lists().len()
                &&& <Greedy as crate::hart_cache::CacheStrategy>::spec_refill_amount(
                    old(self).spec_cache_target(hart as int) as int,
                    old(self).spec_caches()[hart as int].len() as int,
                ) > 0
            }) ==> r is Err,
    {
        let mut amount = {
            let c = &self.hart_caches[hart];
            c.refill_amount()
        };
        let ghost amount0 = amount as int;
        while amount > 0
            invariant
                self.wf_own(),
                self.wf_linked(&*fa),
                fa.wf(),
                hart < MAX_HARTS,
                fa.spec_map() == old(fa).spec_map(),
                fa.spec_orders() == old(fa).spec_orders(),
                self.spec_object_size() == old(self).spec_object_size(),
                self.spec_slots_per_slab() == old(self).spec_slots_per_slab(),
                amount <= amount0,
                self.spec_caches()[hart as int].len()
                    == old(self).spec_caches()[hart as int].len() + (amount0 - amount),
                forall|h: int| 0 <= h < MAX_HARTS
                    ==> self.spec_cache_target(h) == old(self).spec_cache_target(h),
                amount < amount0 ==> !({
                    &&& old(self).spec_partial().len() == 0
                    &&& old(self).spec_empty().len() == 0
                    &&& old(fa).spec_caches()[hart as int].len() == 0
                    &&& crate::frame_allocator::spec_first_free(old(fa).spec_lists(), 0)
                        >= old(fa).spec_lists().len()
                }),
                amount == amount0 ==> self.spec_partial() == old(self).spec_partial()
                    && self.spec_empty() == old(self).spec_empty()
                    && FrameAllocator::same_state(*fa, *old(fa)),
            decreases amount,
        {
            let ghost entry_amount = amount;
            let ghost pre_acq = *self;
            let slab = match self.partial_slabs.pop_front() {
                Some(sl) => {
                    proof {
                        Self::lemma_acquired_from_partial(pre_acq, *self, *fa, sl);
                        if entry_amount == amount0 {
                            assert(old(self).spec_partial().len() > 0);
                        }
                    }
                    sl
                },
                None => {
                    proof {
                        Self::lemma_linked_congruence(pre_acq, *self, *fa);
                    }
                    let ghost pre_acq2 = *self;
                    match self.empty_slabs.pop_front() {
                        Some(sl) => {
                            proof {
                                Self::lemma_acquired_from_empty(pre_acq2, *self, *fa, sl);
                                if entry_amount == amount0 {
                                    assert(old(self).spec_empty().len() > 0);
                                }
                            }
                            sl
                        },
                        None => {
                            proof {
                                Self::lemma_linked_congruence(pre_acq2, *self, *fa);
                            }
                            match self.create_new_slab(fa, hart) {
                                Ok(sl) => {
                                    proof {
                                        if entry_amount == amount0 {
                                            assert(!(old(fa).spec_caches()[
                                                hart as int].len() == 0
                                                && crate::frame_allocator::spec_first_free(
                                                old(fa).spec_lists(),
                                                0,
                                            ) >= old(fa).spec_lists().len()));
                                        }
                                    }
                                    sl
                                },
                                Err(()) => {
                                    proof {
                                        assert(self.spec_partial().len() == 0);
                                        assert(self.spec_empty().len() == 0);
                                    }
                                    return Err(());
                                },
                            }
                        },
                    }
                },
            };
            let ghost slab_g = slab as int;
            proof {
                assert(self.linked_except(&*fa, slab_g));
                assert(self.slab_ok(&*fa, slab_g));
                assert(fa.spec_frames()[slab_g].state->Slab_0.free_slots@.len() > 0);
                assert(slab_g < fa.spec_frames().len());
            }
            // Take at least one slot, then keep going while both the
            // request and the slab have room.
            let mut free_left = {
                let info = fa.frame(slab).slab_info();
                info.free_slots.len()
            };
            let ghost amount1 = amount as int;
            let ghost free_left0 = free_left as int;
            proof {
                assert(free_left0 <= self.spec_slots_per_slab());
            }
            while amount > 0 && free_left > 0
                invariant
                    self.wf_own(),
                    self.linked_except(&*fa, slab_g),
                    self.slab_ok(&*fa, slab_g),
                    fa.wf(),
                    hart < MAX_HARTS,
                    slab_g == slab as int,
                    0 <= slab_g < fa.spec_frames().len(),
                    fa.spec_map() == old(fa).spec_map(),
                    fa.spec_orders() == old(fa).spec_orders(),
                    self.spec_object_size() == old(self).spec_object_size(),
                    self.spec_slots_per_slab() == old(self).spec_slots_per_slab(),
                    free_left == fa.spec_frames()[slab_g].state->Slab_0.free_slots@.len(),
                    amount <= amount1,
                    free_left0 - free_left == amount1 - amount,
                    free_left0 <= self.spec_slots_per_slab(),
                    amount1 <= amount0,
                    self.spec_caches()[hart as int].len()
                        == old(self).spec_caches()[hart as int].len() + (amount0 - amount),
                    forall|h: int| 0 <= h < MAX_HARTS
                        ==> self.spec_cache_target(h) == old(self).spec_cache_target(h),
                decreases amount,
            {
                proof {
                    assert(fa.spec_frames()[slab_g].state->Slab_0.in_use_count
                        < self.spec_slots_per_slab());
                }
                let ghost pre_fa = *fa;
                let popped = fa.slab_pop_slot(slab);
                let sl = match popped {
                    Some(x) => x,
                    None => vstd::pervasive::unreached(),
                };
                let ghost pre_push_self = *self;
                {
                    let c = &mut self.hart_caches[hart];
                    c.push(sl);
                }
                proof {
                    assert(self.spec_caches() =~= pre_push_self.spec_caches().update(
                        hart as int,
                        seq![sl].add(pre_push_self.spec_caches()[hart as int]),
                    ));
                    Self::lemma_cache_grew(
                        pre_push_self,
                        *self,
                        pre_fa,
                        *fa,
                        hart as int,
                        sl,
                        slab_g,
                    );
                    assert forall|h: int| 0 <= h < MAX_HARTS
                        implies self.spec_cache_target(h)
                        == pre_push_self.spec_cache_target(h) by {
                        if h != hart as int {
                            assert(self.hart_caches@[h] == pre_push_self.hart_caches@[h]);
                        }
                    }
                }
                amount = amount - 1;
                free_left = free_left - 1;
            }
            proof {
                // The inner loop ran at least once: the request and the
                // slab both had room when it started.
                assert(amount < amount1);
                assert(free_left < free_left0);
            }
            let has_free = {
                let info = fa.frame(slab).slab_info();
                info.free_slots.len() > 0
            };
            if has_free {
                proof {
                    // At least one slot was taken, so the slab now has
                    // both used and free slots.
                    assert(fa.spec_frames()[slab_g].state->Slab_0.in_use_count >= 1);
                }
                let ghost pre_put = *self;
                self.partial_slabs.push_front(slab);
                proof {
                    Self::lemma_put_back_partial(pre_put, *self, *fa, slab);
                }
            } else {
                proof {
                    self.lemma_leave_unlisted(*fa, slab_g);
                }
            }
        }
        Ok(())
    }
}

/// The full slab allocator: one manager per configured size class
/// (8 bytes up to half a page, doubling).
pub struct SlubAllocator {
    size_classes: Vec<SizeClassManager>,
}

impl SlubAllocator {
    pub closed spec fn spec_classes(&self) -> Seq<SizeClassManager> {
        self.size_classes@
    }

    /// Object size of class `ci`: 8 bytes doubling per class.
    pub open spec fn spec_class_size(ci: int) -> int {
        8 * (pow2(ci as nat) as int)
    }

    /// Smallest class at or above `lo` whose objects hold `size` bytes,
    /// or 9 if none does.
    pub open spec fn spec_class_from(size: int, lo: int) -> int
        decreases 9 - lo,
    {
        if lo >= 9 {
            9
        } else if size <= Self::spec_class_size(lo) {
            lo
        } else {
            Self::spec_class_from(size, lo + 1)
        }
    }

    /// The class that serves a request of `size` bytes: the first one
    /// whose object size covers it.
    pub open spec fn spec_class_for(size: int) -> int {
        Self::spec_class_from(size, 0)
    }

    /// The fitting-class scan is pinned by its bounds.
    proof fn lemma_class_for_pins(size: int, lo: int, ci: int)
        requires
            0 <= lo <= ci < 9,
            size <= Self::spec_class_size(ci),
            forall|x: int| lo <= x < ci ==> size > Self::spec_class_size(x),
        ensures
            Self::spec_class_from(size, lo) == ci,
        decreases ci - lo,
    {
        if lo < ci {
            Self::lemma_class_for_pins(size, lo + 1, ci);
        }
    }

    /// Nine classes, sized 8 to 2048, each internally consistent.
    pub open spec fn wf_own(&self) -> bool {
        &&& self.spec_classes().len() == 9
        &&& forall|ci: int| 0 <= ci < 9 ==> (#[trigger] self.spec_classes()[ci]).wf_own()
            && self.spec_classes()[ci].spec_object_size() == Self::spec_class_size(ci)
    }

    /// Builds the managers for every configured size class.
    pub fn new(num_harts: usize) -> (r: Self)
        ensures
            r.wf_own(),
            forall|ci: int| 0 <= ci < 9 ==> (#[trigger] r.spec_classes()[ci]).spec_partial()
                .len() == 0 && r.spec_classes()[ci].spec_empty().len() == 0
                && (forall|h: int| 0 <= h < MAX_HARTS
                ==> r.spec_classes()[ci].spec_caches()[h].len() == 0),
    {
        let mut size_classes: Vec<SizeClassManager> = Vec::new();
        let mut object_size: usize = 8;
        let mut ci: usize = 0;
        proof {
            vstd::arithmetic::power2::lemma2_to64();
        }
        while ci < 9
            invariant
                size_classes@.len() == ci,
                ci <= 9,
                ci < 9 ==> object_size == 8 * pow2(ci as nat),
                object_size <= 2048,
                forall|x: int| 0 <= x < ci ==> (#[trigger] size_classes@[x]).wf_own()
                    && size_classes@[x].spec_object_size() == Self::spec_class_size(x)
                    && size_classes@[x].spec_partial().len() == 0
                    && size_classes@[x].spec_empty().len() == 0
                    && (forall|h: int| 0 <= h < MAX_HARTS
                    ==> size_classes@[x].spec_caches()[h].len() == 0),
            decreases 9 - ci,
        {
            proof {
                // `BASE_SIZE` is a power of two, so every class size
                // divides it.
                vstd::arithmetic::power2::lemma_pow2_adds(3, ci as nat);
                vstd::arithmetic::power2::lemma_pow2_adds(
                    (ci + 3) as nat,
                    (9 - ci) as nat,
                );
                vstd::arithmetic::power2::lemma2_to64();
                assert(pow2((ci + 3) as nat) == 8 * pow2(ci as nat));
                assert(pow2(12) == pow2((ci + 3) as nat) * pow2((9 - ci) as nat));
                let q = pow2((9 - ci) as nat) as int;
                assert((object_size as int) * q == BASE_SIZE as int) by (nonlinear_arith)
                    requires object_size as int == 8 * pow2(ci as nat)
                        && pow2((ci + 3) as nat) == 8 * pow2(ci as nat)
                        && pow2(12) == pow2((ci + 3) as nat) * pow2((9 - ci) as nat)
                        && q == pow2((9 - ci) as nat) && pow2(12) == 4096
                        && BASE_SIZE as int == 4096,
                ;
                assert(q * (object_size as int) == (object_size as int) * q)
                    by (nonlinear_arith);
                lemma_fundamental_div_mod_converse(
                    BASE_SIZE as int,
                    object_size as int,
                    q,
                    0,
                );
            }
            size_classes.push(SizeClassManager::new(num_harts, object_size));
            ci = ci + 1;
            if ci < 9 {
                proof {
                    vstd::arithmetic::power2::lemma_pow2_adds((ci - 1) as nat, 1);
                    vstd::arithmetic::power2::lemma2_to64();
                }
                object_size = object_size * 2;
            }
        }
        SlubAllocator { size_classes }
    }

    /// Index of the first size class whose objects hold `size` bytes, or
    /// `None` when the request exceeds the largest class.
    pub fn find_size_class(&self, size: usize) -> (r: Option<usize>)
        requires
            self.wf_own(),
        ensures
            r is Some ==> {
                &&& r->0 < 9
                &&& r->0 == Self::spec_class_for(size as int)
                &&& size <= Self::spec_class_size(r->0 as int)
                &&& forall|ci: int| 0 <= ci < r->0 ==> size > Self::spec_class_size(ci)
            },
            r is None ==> size > 2048,
            size <= 2048 ==> r is Some,
    {
        let mut ci: usize = 0;
        proof {
            vstd::arithmetic::power2::lemma2_to64();
        }
        while ci < 9
            invariant
                self.wf_own(),
                ci <= 9,
                forall|x: int| 0 <= x < ci ==> size > Self::spec_class_size(x),
            decreases 9 - ci,
        {
            let class_size = {
                let c = &self.size_classes[ci];
                c.object_size()
            };
            if class_size >= size {
                proof {
                    Self::lemma_class_for_pins(size as int, 0, ci as int);
                }
                return Some(ci);
            }
            proof {
                assert(Self::spec_class_size(ci as int)
                    == self.spec_classes()[ci as int].spec_object_size() as int);
            }
            ci = ci + 1;
        }
        proof {
            vstd::arithmetic::power2::lemma2_to64();
            assert(size > Self::spec_class_size(8));
        }
        None
    }
}

/// The process-wide allocator facade: a one-shot published slab allocator
/// in front of the buddy frame allocator. Small requests go to a size
/// class; oversize requests go straight to the buddy allocator as
/// multi-page blocks.
pub struct KernelAllocator {
    pub slub: crate::once_lock::OnceLock<SlubAllocator>,
}

impl KernelAllocator {
    pub fn new() -> (r: Self)
        ensures
            !r.slub.spec_is_init(),
    {
        KernelAllocator { slub: crate::once_lock::OnceLock::new() }
    }

    /// Routes a request: size classes serve up to 2048 bytes, the buddy
    /// allocator the rest. Returns the allocation's address, or `None`
    /// when the facade is uninitialized or memory is exhausted.
    pub fn allocate(&mut self, fa: &mut FrameAllocator, hart: usize, size: usize, align: usize)
        -> (r: Option<usize>)
        requires
            old(fa).wf(),
            hart < MAX_HARTS,
            old(self).slub.spec_is_init() ==> old(self).slub.spec_value().wf_own()
                && (forall|ci: int| 0 <= ci < 9 ==> (#[trigger] old(self).slub.spec_value()
                .spec_classes()[ci]).wf_linked(&*old(fa))),
        ensures
            final(fa).wf(),
            final(fa).spec_map() == old(fa).spec_map(),
            final(fa).spec_orders() == old(fa).spec_orders(),
            !old(self).slub.spec_is_init() ==> r is None
                && FrameAllocator::same_state(*final(fa), *old(fa)),
            old(self).slub.spec_is_init() && size <= 2048 ==> ({
                // A small request goes to the smallest fitting size class;
                // alignments above the slot size are unsupported there.
                let ci = SlubAllocator::spec_class_for(size as int);
                let class0 = old(self).slub.spec_value().spec_classes()[ci];
                &&& (align > class0.spec_object_size() ==> r is None)
                &&& (align <= class0.spec_object_size() ==> ({
                    &&& (r is Some ==> final(self).slub.spec_is_init()
                        && final(self).slub.spec_value().spec_classes()[
                        ci].slot_outstanding(&*final(fa), r->0 as int))
                    &&& (({
                        &&& class0.spec_caches()[hart as int].len() == 0
                        &&& class0.spec_partial().len() == 0
                        &&& class0.spec_empty().len() == 0
                        &&& old(fa).spec_caches()[hart as int].len() == 0
                        &&& crate::frame_allocator::spec_first_free(old(fa).spec_lists(), 0)
                            >= old(fa).spec_lists().len()
                    }) ==> r is None)
                    &&& (class0.spec_caches()[hart as int].len() > 0
                        ==> r == Some(class0.spec_caches()[hart as int][0]))
                }))
            }),
            old(self).slub.spec_is_init() && size > 2048 ==> ({
                // An oversize request goes to the buddy allocator as a
                // multi-page block.
                &&& (align > BASE_SIZE ==> r is None)
                &&& (align <= BASE_SIZE && size >= old(fa).spec_map().free_memory.size
                    ==> r is None)
                &&& (align <= BASE_SIZE && size < old(fa).spec_map().free_memory.size ==> ({
                    let k = FrameAllocator::spec_order_from_size(size as int);
                    &&& (r is None <==> !((k == 0 && old(fa).spec_caches()[
                        hart as int].len() > 0) || crate::frame_allocator::spec_first_free(
                        old(fa).spec_lists(),
                        k as int,
                    ) < old(fa).spec_lists().len()))
                    &&& (r is Some ==> ({
                        let i = (r->0 - old(fa).spec_map().ram.start.0) / (BASE_SIZE as int);
                        &&& r->0 == old(fa).addr_of(i)
                        &&& final(fa).spec_allocated()
                            == old(fa).spec_allocated().insert(i, k)
                        &&& final(fa).spec_frames()[i].state is Allocated
                        &&& final(fa).valid_block(i, k)
                    }))
                }))
            }),
    {
        let slub = match &mut self.slub.value {
            Some(s) => s,
            None => {
                return None;
            },
        };
        match slub.find_size_class(size) {
            Some(ci) => {
                let class = &mut slub.size_classes[ci];
                // Within a class, alignment is served by the slot size
                // itself; larger alignments fall outside the classes.
                if class.object_size() < align {
                    return None;
                }
                Self::class_alloc(class, fa, hart)
            },
            None => {
                match fa.allocate(hart, size, align) {
                    Some(a) => Some(a.as_usize()),
                    None => None,
                }
            },
        }
    }

    /// One class allocation step.
    fn class_alloc(class: &mut SizeClassManager, fa: &mut FrameAllocator, hart: usize) -> (r:
        Option<usize>)
        requires
            old(class).wf_own(),
            old(class).wf_linked(&*old(fa)),
            old(fa).wf(),
            hart < MAX_HARTS,
        ensures
            final(fa).wf(),
            final(class).wf_own(),
            final(class).wf_linked(&*final(fa)),
            final(fa).spec_map() == old(fa).spec_map(),
            final(fa).spec_orders() == old(fa).spec_orders(),
            r is Some ==> final(class).slot_outstanding(&*final(fa), r->0 as int),
            ({
                &&& old(class).spec_caches()[hart as int].len() == 0
                &&& old(class).spec_partial().len() == 0
                &&& old(class).spec_empty().len() == 0
                &&& old(fa).spec_caches()[hart as int].len() == 0
                &&& crate::frame_allocator::spec_first_free(old(fa).spec_lists(), 0)
                    >= old(fa).spec_lists().len()
            }) ==> r is None,
            old(class).spec_caches()[hart as int].len() > 0
                ==> r == Some(old(class).spec_caches()[hart as int][0]),
    {
        class.allocate(fa, hart)
    }

    /// Routes a release by the caller-supplied layout, mirroring the
    /// selection made at allocation time.
    pub fn dealloc(&mut self, fa: &mut FrameAllocator, hart: usize, ptr: usize, size: usize, align: usize)
        requires
            old(fa).wf(),
            hart < MAX_HARTS,
            old(self).slub.spec_is_init() ==> old(self).slub.spec_value().wf_own()
                && (forall|ci: int| 0 <= ci < 9 ==> (#[trigger] old(self).slub.spec_value()
                .spec_classes()[ci]).wf_linked(&*old(fa))),
            old(self).slub.spec_is_init() && size <= 2048 ==> ({
                // The slot being returned is an outstanding, uncached slot
                // of the class the layout selects.
                let ci = SlubAllocator::spec_class_for(size as int);
                &&& old(self).slub.spec_value().spec_classes()[ci].slot_outstanding(
                    &*old(fa),
                    ptr as int,
                )
                &&& old(self).slub.spec_value().spec_classes()[ci].slot_uncached(ptr)
            }),
            old(self).slub.spec_is_init() && size > 2048 ==> ({
                let i = (ptr - old(fa).spec_map().ram.start.0) / (BASE_SIZE as int);
                &&& old(fa).spec_allocated().dom().contains(i)
                &&& ptr == old(fa).addr_of(i)
            }),
        ensures
            final(fa).wf(),
            final(fa).spec_map() == old(fa).spec_map(),
            final(fa).spec_orders() == old(fa).spec_orders(),
            !old(self).slub.spec_is_init() ==> FrameAllocator::same_state(
                *final(fa),
                *old(fa),
            ),
            old(self).slub.spec_is_init() && size <= 2048 ==> ({
                // The slot returns to its class: the hart cache gains it,
                // or its owning slab's free stack does.
                let ci = SlubAllocator::spec_class_for(size as int);
                let class0 = old(self).slub.spec_value().spec_classes()[ci];
                &&& (class0.spec_caches()[hart as int].len()
                    < class0.spec_cache_target(hart as int) ==> ({
                    &&& final(self).slub.spec_is_init()
                    &&& final(self).slub.spec_value().spec_classes()[ci].spec_caches()
                        == class0.spec_caches().update(
                        hart as int,
                        seq![ptr].add(class0.spec_caches()[hart as int]),
                    )
                    &&& FrameAllocator::same_state(*final(fa), *old(fa))
                }))
                &&& (class0.spec_caches()[hart as int].len()
                    >= class0.spec_cache_target(hart as int) ==> ({
                    let o = class0.owner_of(&*old(fa), ptr as int);
                    &&& final(fa).spec_frames()[o].state is Slab
                    &&& final(fa).spec_frames()[o].state->Slab_0.free_slots@
                        == old(fa).spec_frames()[o].state->Slab_0.free_slots@.push(ptr)
                    &&& final(fa).spec_frames()[o].state->Slab_0.in_use_count
                        == old(fa).spec_frames()[o].state->Slab_0.in_use_count - 1
                }))
            }),
            old(self).slub.spec_is_init() && size > 2048 ==> ({
                // The block goes back to the buddy allocator.
                let i = (ptr - old(fa).spec_map().ram.start.0) / (BASE_SIZE as int);
                let k = old(fa).spec_allocated()[i];
                &&& final(fa).spec_allocated() == old(fa).spec_allocated().remove(i)
                &&& final(fa).free_list_bytes() + final(fa).free_cache_bytes()
                    == old(fa).free_list_bytes() + old(fa).free_cache_bytes()
                    + pow2(k) * BASE_SIZE
            }),
    {
        let slub = match &mut self.slub.value {
            Some(s) => s,
            None => {
                return;
            },
        };
        match slub.find_size_class(size) {
            Some(ci) => {
                let class = &mut slub.size_classes[ci];
                Self::class_dealloc(class, fa, hart, ptr);
            },
            None => {
                fa.dealloc(hart, PhysicalAddress::new(ptr), size, align);
            },
        }
    }

    /// One class release step.
    fn class_dealloc(class: &mut SizeClassManager, fa: &mut FrameAllocator, hart: usize, ptr: usize)
        requires
            old(class).wf_own(),
            old(class).wf_linked(&*old(fa)),
            old(fa).wf(),
            hart < MAX_HARTS,
            old(class).slot_outstanding(&*old(fa), ptr as int),
            old(class).slot_uncached(ptr),
        ensures
            final(fa).wf(),
            final(class).wf_own(),
            final(class).wf_linked(&*final(fa)),
            final(fa).spec_map() == old(fa).spec_map(),
            final(fa).spec_orders() == old(fa).spec_orders(),
            old(class).spec_caches()[hart as int].len()
                < old(class).spec_cache_target(hart as int) ==> ({
                &&& final(class).spec_caches() == old(class).spec_caches().update(
                    hart as int,
                    seq![ptr].add(old(class).spec_caches()[hart as int]),
                )
                &&& FrameAllocator::same_state(*final(fa), *old(fa))
            }),
            old(class).spec_caches()[hart as int].len()
                >= old(class).spec_cache_target(hart as int) ==> ({
                let o = old(class).owner_of(&*old(fa), ptr as int);
                &&& final(fa).spec_frames()[o].state is Slab
                &&& final(fa).spec_frames()[o].state->Slab_0.free_slots@
                    == old(fa).spec_frames()[o].state->Slab_0.free_slots@.push(ptr)
                &&& final(fa).spec_frames()[o].state->Slab_0.in_use_count
                    == old(fa).spec_frames()[o].state->Slab_0.in_use_count - 1
            }),
    {
        class.dealloc(fa, hart, ptr)
    }
}

} // verus!
