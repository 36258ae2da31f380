//! The buddy frame allocator.
//!
//! Manages the free pool of the memory map in power-of-two blocks of base
//! pages. Every base page of RAM has a descriptor in `frames`; a block is
//! named by the index of its head frame. Free block heads sit on the
//! per-order free lists; order-0 allocations are fronted by per-hart
//! caches with the quartering policy.
//!
//! The well-formedness predicate carries the buddy invariants: every free
//! block head is aligned to its block size (its address is a multiple of
//! `2^k * BASE_SIZE`), the bitmap mirrors list emptiness, no two free
//! blocks of one order are buddies of each other, and all placed blocks —
//! free, cached, or handed out — occupy pairwise disjoint page ranges of
//! the pool. A ghost map records the blocks currently handed out, so that
//! deallocation can be specified exactly.

use vstd::prelude::*;

verus! {

use crate::arith::{
    aligned_to_pow2, lemma_aligned_weaken, lemma_buddy_xor, lemma_mod_diff_zero, log2_floor,
    pow2_usize, spec_log2_floor,
};
use crate::frame::{BASE_SIZE, Frame, State};
use crate::free_lists::FreeLists;
use crate::hart_cache::{CacheStrategy, HartCache, MAX_HARTS, Quartering};
use crate::pmem_map::{PhysicalMemoryMap, spec_num_frames};
use crate::address::PhysicalAddress;
use vstd::arithmetic::div_mod::{lemma_fundamental_div_mod, lemma_fundamental_div_mod_converse};
use vstd::arithmetic::power2::{
    lemma2_to64, lemma_pow2_adds, lemma_pow2_pos, lemma_pow2_strictly_increases, pow2,
};

/// Initial target size of the per-hart order-0 caches.
pub const DEFAULT_CACHE_SIZE: usize = 16;

/// Address of the buddy of the block of order `k` at address `a`.
pub open spec fn spec_buddy_addr(a: int, k: nat) -> int {
    ((a as u64) ^ (pow2((k + 12) as nat) as u64)) as int
}

/// Two blocks of the given orders cover disjoint page ranges.
pub open spec fn blocks_disjoint(i1: int, k1: nat, i2: int, k2: nat) -> bool {
    i1 + pow2(k1) <= i2 || i2 + pow2(k2) <= i1
}

/// Bytes held on the free lists below order `upto`.
pub open spec fn list_bytes(ll: Seq<Seq<usize>>, upto: int) -> int
    decreases upto,
{
    if upto <= 0 {
        0
    } else {
        list_bytes(ll, upto - 1) + ll[upto - 1].len() * pow2((upto - 1) as nat) * BASE_SIZE
    }
}

/// Bytes held in the first `upto` per-hart caches.
pub open spec fn cache_bytes(cc: Seq<Seq<usize>>, upto: int) -> int
    decreases upto,
{
    if upto <= 0 {
        0
    } else {
        cache_bytes(cc, upto - 1) + cc[upto - 1].len() * BASE_SIZE
    }
}

/// How `list_bytes` responds to changing one list's length by `d`.
pub proof fn lemma_list_bytes_update(
    ll1: Seq<Seq<usize>>,
    ll2: Seq<Seq<usize>>,
    k: int,
    d: int,
    upto: int,
)
    requires
        ll1.len() == ll2.len(),
        0 <= k < ll1.len(),
        upto <= ll1.len(),
        ll2[k].len() == ll1[k].len() + d,
        forall|x: int| 0 <= x < ll1.len() && x != k ==> ll2[x] == ll1[x],
    ensures
        k < upto ==> list_bytes(ll2, upto) == list_bytes(ll1, upto) + d * pow2(k as nat)
            * BASE_SIZE,
        upto <= k ==> list_bytes(ll2, upto) == list_bytes(ll1, upto),
    decreases upto,
{
    if upto > 0 {
        lemma_list_bytes_update(ll1, ll2, k, d, upto - 1);
        if k == upto - 1 {
            let p = pow2(k as nat) as int;
            let n1 = ll1[k].len() as int;
            assert((n1 + d) * p * BASE_SIZE == n1 * p * BASE_SIZE + d * p * BASE_SIZE)
                by (nonlinear_arith);
        }
    }
}

/// How `cache_bytes` responds to changing one cache's length by `d`.
pub proof fn lemma_cache_bytes_update(
    cc1: Seq<Seq<usize>>,
    cc2: Seq<Seq<usize>>,
    h: int,
    d: int,
    upto: int,
)
    requires
        cc1.len() == cc2.len(),
        0 <= h < cc1.len(),
        upto <= cc1.len(),
        cc2[h].len() == cc1[h].len() + d,
        forall|x: int| 0 <= x < cc1.len() && x != h ==> cc2[x] == cc1[x],
    ensures
        h < upto ==> cache_bytes(cc2, upto) == cache_bytes(cc1, upto) + d * BASE_SIZE,
        upto <= h ==> cache_bytes(cc2, upto) == cache_bytes(cc1, upto),
    decreases upto,
{
    if upto > 0 {
        lemma_cache_bytes_update(cc1, cc2, h, d, upto - 1);
        if h == upto - 1 {
            let n1 = cc1[h].len() as int;
            assert((n1 + d) * BASE_SIZE == n1 * BASE_SIZE + d * BASE_SIZE) by (nonlinear_arith);
        }
    }
}

/// Empty caches hold no bytes.
pub proof fn lemma_cache_bytes_zero(cc: Seq<Seq<usize>>, upto: int)
    requires
        forall|x: int| 0 <= x < upto ==> cc[x].len() == 0,
    ensures
        cache_bytes(cc, upto) == 0,
    decreases upto,
{
    if upto > 0 {
        lemma_cache_bytes_zero(cc, upto - 1);
    }
}

/// Empty lists hold no bytes.
pub proof fn lemma_list_bytes_zero(ll: Seq<Seq<usize>>, upto: int)
    requires
        forall|x: int| 0 <= x < upto ==> ll[x].len() == 0,
    ensures
        list_bytes(ll, upto) == 0,
    decreases upto,
{
    if upto > 0 {
        lemma_list_bytes_zero(ll, upto - 1);
    }
}

/// Smallest order at or above `from` whose list is non-empty, or the list
/// count if none is.
pub open spec fn spec_first_free(ll: Seq<Seq<usize>>, from: int) -> int
    decreases ll.len() - from,
{
    if from < 0 {
        spec_first_free(ll, 0)
    } else if from >= ll.len() {
        ll.len() as int
    } else if ll[from].len() > 0 {
        from
    } else {
        spec_first_free(ll, from + 1)
    }
}

/// The free lists after splitting the block popped from list `f` down to
/// order `req`: list `f` loses its front, and each order `req <= k < f`
/// gains the upper-half buddy `h + 2^k` at its front.
pub open spec fn split_lists(ll: Seq<Seq<usize>>, h: int, f: int, req: int) -> Seq<Seq<usize>> {
    Seq::new(
        ll.len(),
        |k: int|
            if k == f {
                ll[k].drop_first()
            } else if req <= k < f {
                seq![(h + pow2(k as nat)) as usize].add(ll[k])
            } else {
                ll[k]
            },
    )
}

/// Whether `x` is one of the upper-half buddies created when splitting the
/// block at `h` from order `f` down to `req`.
pub open spec fn is_split_buddy(h: int, f: int, req: int, x: int) -> bool {
    exists|j: int| req <= j < f && x == h + #[trigger] pow2(j as nat)
}

/// The free lists and frame descriptors after returning the floating free
/// block `(i, k)` to the global lists: as long as the buddy of the current
/// block is a listed free block of the same order inside the pool, the
/// buddy leaves its list and the two halves merge with the lower-addressed
/// head carrying the doubled order; the final block is pushed onto its
/// order's list.
pub open spec fn spec_coalesce(
    map: PhysicalMemoryMap,
    orders: u8,
    lists: Seq<Seq<usize>>,
    frames: Seq<Frame>,
    i: int,
    k: nat,
) -> (Seq<Seq<usize>>, Seq<Frame>)
    decreases 64 - k,
{
    let a = map.ram.start.0 + i * BASE_SIZE;
    let ba = spec_buddy_addr(a, k);
    let bi = (ba - map.ram.start.0) / (BASE_SIZE as int);
    let can = {
        &&& k + 1 < orders
        &&& k < lists.len()
        &&& map.free_memory.spec_contains(ba)
        &&& 0 <= bi < frames.len()
        &&& frames[bi].state is Free
        &&& frames[bi].order == k
        &&& lists[k as int].contains(bi as usize)
    };
    if !can || k >= 64 {
        (
            if k < lists.len() {
                lists.update(k as int, seq![i as usize].add(lists[k as int]))
            } else {
                lists
            },
            frames,
        )
    } else {
        let lists2 = lists.update(
            k as int,
            lists[k as int].remove(lists[k as int].index_of(bi as usize)),
        );
        let lower: int = if ba < a {
            bi
        } else {
            i
        };
        let frames2 = frames.update(
            lower,
            Frame { order: (k + 1) as u8, ..frames[lower] },
        );
        spec_coalesce(map, orders, lists2, frames2, lower, (k + 1) as nat)
    }
}

/// Conditions under which the coalesce model merges with the buddy.
pub open spec fn spec_can_merge(
    map: PhysicalMemoryMap,
    orders: u8,
    lists: Seq<Seq<usize>>,
    frames: Seq<Frame>,
    i: int,
    k: nat,
) -> bool {
    let a = map.ram.start.0 + i * BASE_SIZE;
    let ba = spec_buddy_addr(a, k);
    let bi = (ba - map.ram.start.0) / (BASE_SIZE as int);
    &&& k + 1 < orders
    &&& k < lists.len()
    &&& map.free_memory.spec_contains(ba)
    &&& 0 <= bi < frames.len()
    &&& frames[bi].state is Free
    &&& frames[bi].order == k
    &&& lists[k as int].contains(bi as usize)
}

/// Base case of the coalesce model: no merge applies, the block is pushed.
proof fn lemma_coalesce_base(
    map: PhysicalMemoryMap,
    orders: u8,
    lists: Seq<Seq<usize>>,
    frames: Seq<Frame>,
    i: int,
    k: nat,
)
    requires
        !spec_can_merge(map, orders, lists, frames, i, k) || k >= 64,
        k < lists.len(),
    ensures
        spec_coalesce(map, orders, lists, frames, i, k)
            == (lists.update(k as int, seq![i as usize].add(lists[k as int])), frames),
{
}

/// Merge step of the coalesce model.
proof fn lemma_coalesce_step(
    map: PhysicalMemoryMap,
    orders: u8,
    lists: Seq<Seq<usize>>,
    frames: Seq<Frame>,
    i: int,
    k: nat,
)
    requires
        spec_can_merge(map, orders, lists, frames, i, k),
        k < 64,
    ensures
        ({
            let a = map.ram.start.0 + i * BASE_SIZE;
            let ba = spec_buddy_addr(a, k);
            let bi = (ba - map.ram.start.0) / (BASE_SIZE as int);
            let lists2 = lists.update(
                k as int,
                lists[k as int].remove(lists[k as int].index_of(bi as usize)),
            );
            let lower: int = if ba < a {
                bi
            } else {
                i
            };
            let frames2 = frames.update(
                lower,
                Frame { order: (k + 1) as u8, ..frames[lower] },
            );
            spec_coalesce(map, orders, lists, frames, i, k)
                == spec_coalesce(map, orders, lists2, frames2, lower, (k + 1) as nat)
        }),
{
}

/// `spec_first_free` really is the first non-empty order at or above
/// `from`.
pub proof fn lemma_first_free_correct(ll: Seq<Seq<usize>>, from: int)
    requires
        from >= 0,
    ensures
        spec_first_free(ll, from) <= ll.len(),
        spec_first_free(ll, from) < ll.len() ==> from <= spec_first_free(ll, from)
            && ll[spec_first_free(ll, from)].len() > 0,
        forall|j: int| from <= j < spec_first_free(ll, from) ==> ll[j].len() == 0,
    decreases ll.len() - from,
{
    if from < ll.len() && ll[from].len() == 0 {
        lemma_first_free_correct(ll, from + 1);
    }
}

/// Scaling page indices by the page size keeps their order.
proof fn lemma_index_addr_order(x1: int, x2: int)
    by (nonlinear_arith)
    ensures
        x1 <= x2 <==> x1 * BASE_SIZE <= x2 * BASE_SIZE,
        x1 == x2 <==> x1 * BASE_SIZE == x2 * BASE_SIZE,
{
}

/// Distributes the page size over an index sum.
proof fn lemma_mul_distrib(x: int, p: int)
    by (nonlinear_arith)
    ensures
        (x + p) * BASE_SIZE == x * BASE_SIZE + p * BASE_SIZE,
{
}

pub struct FrameAllocator {
    map: PhysicalMemoryMap,
    frames: Vec<Frame>,
    free_lists: FreeLists,
    hart_caches: Vec<HartCache<usize, Quartering>>,
    orders: u8,
    allocated: Ghost<Map<int, nat>>,
}

impl FrameAllocator {
    /// The memory map the allocator was initialized over.
    pub closed spec fn spec_map(&self) -> PhysicalMemoryMap {
        self.map
    }

    /// The frame descriptor array.
    pub closed spec fn spec_frames(&self) -> Seq<Frame> {
        self.frames@
    }

    /// The free-list structure itself.
    pub closed spec fn spec_free_lists(&self) -> FreeLists {
        self.free_lists
    }

    /// The per-order free lists of block head indices.
    pub open spec fn spec_lists(&self) -> Seq<Seq<usize>> {
        self.spec_free_lists()@
    }

    /// The contents of each per-hart cache.
    pub closed spec fn spec_caches(&self) -> Seq<Seq<usize>> {
        Seq::new(self.hart_caches@.len(), |h: int| self.hart_caches@[h]@)
    }

    /// The adjustable target size of hart `h`'s cache. A target of zero
    /// effectively disables the cache.
    pub closed spec fn spec_cache_target(&self, h: int) -> usize {
        self.hart_caches@[h].spec_target()
    }

    pub closed spec fn spec_orders(&self) -> u8 {
        self.orders
    }

    /// The blocks currently handed out: head index to order.
    pub closed spec fn spec_allocated(&self) -> Map<int, nat> {
        self.allocated@
    }

    /// Base address of the page described by frame `i`.
    pub open spec fn addr_of(&self, i: int) -> int {
        self.spec_map().ram.start.0 + i * BASE_SIZE
    }

    /// A well-formed block of order `k` headed by frame `i`: inside the
    /// free pool, and aligned to its own size.
    pub open spec fn valid_block(&self, i: int, k: nat) -> bool {
        &&& 0 <= i
        &&& (k as int) < self.spec_orders() as int
        &&& i + pow2(k) <= spec_num_frames(self.spec_map().ram.size as int)
        &&& self.spec_map().free_memory.start.0 <= self.addr_of(i)
        &&& self.addr_of(i) + pow2(k) * BASE_SIZE <= self.spec_map().free_memory.spec_end()
        &&& aligned_to_pow2(self.addr_of(i), (k + 12) as nat)
    }

    /// Every free-list entry heads a valid free block of its order.
    pub open spec fn list_entries_wf(&self) -> bool {
        forall|k: int, j: int|
            0 <= k < self.spec_lists().len() && 0 <= j < self.spec_lists()[k].len() ==> {
                let i = #[trigger] self.spec_lists()[k][j] as int;
                &&& self.valid_block(i, k as nat)
                &&& self.spec_frames()[i].state is Free
                &&& self.spec_frames()[i].order == k
            }
    }

    /// Every cached frame is a valid free order-0 block.
    pub open spec fn cache_entries_wf(&self) -> bool {
        forall|h: int, j: int|
            0 <= h < self.spec_caches().len() && 0 <= j < self.spec_caches()[h].len() ==> {
                let i = #[trigger] self.spec_caches()[h][j] as int;
                &&& self.valid_block(i, 0)
                &&& self.spec_frames()[i].state is Free
                &&& self.spec_frames()[i].order == 0
            }
    }

    /// Every handed-out block is valid and its head carries its order.
    pub open spec fn allocated_wf(&self) -> bool {
        forall|i: int| #[trigger] self.spec_allocated().dom().contains(i) ==> {
            &&& self.valid_block(i, self.spec_allocated()[i])
            &&& self.spec_frames()[i].order == self.spec_allocated()[i]
        }
    }

    pub open spec fn lists_disjoint(&self) -> bool {
        forall|k1: int, j1: int, k2: int, j2: int|
            0 <= k1 < self.spec_lists().len() && 0 <= j1 < self.spec_lists()[k1].len()
                && 0 <= k2 < self.spec_lists().len() && 0 <= j2 < self.spec_lists()[k2].len()
                && (k1 != k2 || j1 != j2)
                ==> blocks_disjoint(
                    #[trigger] self.spec_lists()[k1][j1] as int,
                    k1 as nat,
                    #[trigger] self.spec_lists()[k2][j2] as int,
                    k2 as nat,
                )
    }

    pub open spec fn caches_disjoint(&self) -> bool {
        forall|h1: int, j1: int, h2: int, j2: int|
            0 <= h1 < self.spec_caches().len() && 0 <= j1 < self.spec_caches()[h1].len()
                && 0 <= h2 < self.spec_caches().len() && 0 <= j2 < self.spec_caches()[h2].len()
                && (h1 != h2 || j1 != j2)
                ==> #[trigger] self.spec_caches()[h1][j1] != #[trigger] self.spec_caches()[h2][j2]
    }

    pub open spec fn allocated_disjoint(&self) -> bool {
        forall|i1: int, i2: int|
            #[trigger] self.spec_allocated().dom().contains(i1)
                && #[trigger] self.spec_allocated().dom().contains(i2) && i1 != i2
                ==> blocks_disjoint(i1, self.spec_allocated()[i1], i2, self.spec_allocated()[i2])
    }

    pub open spec fn lists_caches_disjoint(&self) -> bool {
        forall|k: int, j: int, h: int, j2: int|
            0 <= k < self.spec_lists().len() && 0 <= j < self.spec_lists()[k].len()
                && 0 <= h < self.spec_caches().len() && 0 <= j2 < self.spec_caches()[h].len()
                ==> blocks_disjoint(
                    #[trigger] self.spec_lists()[k][j] as int,
                    k as nat,
                    #[trigger] self.spec_caches()[h][j2] as int,
                    0,
                )
    }

    pub open spec fn lists_allocated_disjoint(&self) -> bool {
        forall|k: int, j: int, i: int|
            0 <= k < self.spec_lists().len() && 0 <= j < self.spec_lists()[k].len()
                && #[trigger] self.spec_allocated().dom().contains(i)
                ==> blocks_disjoint(
                    #[trigger] self.spec_lists()[k][j] as int,
                    k as nat,
                    i,
                    self.spec_allocated()[i],
                )
    }

    pub open spec fn caches_allocated_disjoint(&self) -> bool {
        forall|h: int, j: int, i: int|
            0 <= h < self.spec_caches().len() && 0 <= j < self.spec_caches()[h].len()
                && #[trigger] self.spec_allocated().dom().contains(i)
                ==> blocks_disjoint(
                    #[trigger] self.spec_caches()[h][j] as int,
                    0,
                    i,
                    self.spec_allocated()[i],
                )
    }

    /// No two free blocks of the same order are buddies: they would have
    /// been coalesced.
    pub open spec fn no_free_buddy_pairs(&self) -> bool {
        forall|k: int, j1: int, j2: int|
            0 <= k < self.spec_lists().len() && 0 <= j1 < self.spec_lists()[k].len()
                && 0 <= j2 < self.spec_lists()[k].len()
                ==> self.addr_of(#[trigger] self.spec_lists()[k][j2] as int)
                    != spec_buddy_addr(
                        self.addr_of(#[trigger] self.spec_lists()[k][j1] as int),
                        k as nat,
                    )
    }

    pub open spec fn wf(&self) -> bool {
        &&& self.spec_map().wf()
        &&& self.spec_frames().len() == spec_num_frames(self.spec_map().ram.size as int)
        &&& self.spec_free_lists().wf()
        &&& self.spec_lists().len() == self.spec_orders() as int
        &&& 1 <= self.spec_orders() <= 51
        &&& spec_num_frames(self.spec_map().ram.size as int) < pow2(self.spec_orders() as nat)
        &&& self.spec_caches().len() == MAX_HARTS
        &&& self.list_entries_wf()
        &&& self.cache_entries_wf()
        &&& self.allocated_wf()
        &&& self.lists_disjoint()
        &&& self.caches_disjoint()
        &&& self.allocated_disjoint()
        &&& self.lists_caches_disjoint()
        &&& self.lists_allocated_disjoint()
        &&& self.caches_allocated_disjoint()
        &&& self.no_free_buddy_pairs()
    }

    /// Bytes on the global free lists.
    pub open spec fn free_list_bytes(&self) -> int {
        list_bytes(self.spec_lists(), self.spec_lists().len() as int)
    }

    /// Bytes parked in per-hart caches.
    pub open spec fn free_cache_bytes(&self) -> int {
        cache_bytes(self.spec_caches(), self.spec_caches().len() as int)
    }

    /// Number of buddy orders in use.
    pub fn orders(&self) -> (r: u8)
        ensures
            r == self.spec_orders(),
    {
        self.orders
    }

    /// The free-list summary bitmap; bit `k` set means order `k` has a
    /// free block.
    pub fn bitmap(&self) -> (r: u64)
        ensures
            r == self.spec_free_lists().spec_bitmap(),
    {
        self.free_lists.bitmap_bits()
    }

    /// Read access to a frame descriptor.
    pub fn frame(&self, idx: usize) -> (r: &Frame)
        requires
            idx < self.spec_frames().len(),
        ensures
            *r == self.spec_frames()[idx as int],
    {
        &self.frames[idx]
    }

    /// The memory map the allocator serves.
    pub fn memory_map(&self) -> (r: &PhysicalMemoryMap)
        ensures
            *r == self.spec_map(),
    {
        &self.map
    }

    /// Number of frames tracked (one per base page of RAM).
    pub fn frame_count(&self) -> (r: usize)
        ensures
            r == self.spec_frames().len(),
    {
        self.frames.len()
    }

    /// Builds the allocator over a computed memory map: one fresh frame
    /// descriptor per page of RAM, empty per-hart caches, and the free
    /// pool distributed greedily into the largest power-of-two blocks,
    /// highest order first. The pool start must be aligned to the first
    /// block the greedy split takes; every later block is then aligned
    /// too.
    pub fn init(map: &PhysicalMemoryMap) -> (r: Self)
        requires
            map.wf(),
            spec_num_frames(map.ram.size as int) < pow2(50),
            aligned_to_pow2(
                map.free_memory.start.0 as int,
                (spec_log2_floor((map.free_memory.size / BASE_SIZE) as nat) + 12) as nat,
            ),
        ensures
            r.wf(),
            r.spec_map() == *map,
            r.spec_allocated() == Map::<int, nat>::empty(),
            r.free_list_bytes() == map.free_memory.size,
            r.free_cache_bytes() == 0,
            r.spec_orders() as nat == spec_log2_floor(
                spec_num_frames(map.ram.size as int) as nat,
            ) + 1,
            forall|k: int| 0 <= k < r.spec_lists().len() ==> r.spec_lists()[k].len() <= 1,
            forall|h: int| 0 <= h < MAX_HARTS ==> r.spec_caches()[h].len() == 0,
            forall|h: int| 0 <= h < MAX_HARTS
                ==> r.spec_cache_target(h) == DEFAULT_CACHE_SIZE,
    {
        let ghost ram0 = map.ram.start.0 as int;
        let ghost b = BASE_SIZE as int;
        let nf = map.num_frames();
        proof {
            lemma_fundamental_div_mod(map.ram.size as int, b);
            assert(nf >= 1);
        }

        let mut frames: Vec<Frame> = Vec::new();
        while frames.len() < nf
            invariant
                frames@.len() <= nf,
                forall|x: int| 0 <= x < frames@.len() ==> (#[trigger] frames@[x]).state is Free
                    && frames@[x].order == 0,
            decreases nf - frames@.len(),
        {
            frames.push(Frame::new());
        }

        proof {
            lemma_pow2_strictly_increases(50, 64);
        }
        let order_top = log2_floor(nf);
        proof {
            if order_top >= 50 {
                if order_top > 50 {
                    lemma_pow2_strictly_increases(50, order_top as nat);
                }
                assert(pow2(order_top as nat) >= pow2(50));
                assert(false);
            }
        }
        let orders: u8 = order_top + 1;
        let mut free_lists = FreeLists::new(orders as usize);

        let pf = map.frame_idx_from_address(map.free_memory.start());
        let free_pages = map.free_memory.size() / BASE_SIZE;
        proof {
            // The pool boundaries are page-aligned, so the page index of the
            // pool start translates back exactly.
            let fs = map.free_memory.start.0 as int;
            lemma_mod_diff_zero(fs, ram0, b);
            lemma_fundamental_div_mod(fs - ram0, b);
            lemma_fundamental_div_mod(map.free_memory.size as int, b);
            assert(free_pages >= 1);
            assert(ram0 + (pf as int) * b == fs) by (nonlinear_arith)
                requires (pf as int) == (fs - ram0) / b && (fs - ram0) % b == 0 && b > 0
                    && ram0 >= 0 && fs >= ram0,
            ;
            // The pool runs to the end of RAM, so it ends at frame `nf`.
            assert((pf + free_pages) as int * b == map.ram.size as int + ram0 - ram0) by {
                assert((pf as int + free_pages as int) * b == (pf as int) * b + (
                free_pages as int) * b) by (nonlinear_arith);
                assert((free_pages as int) * b == map.free_memory.size as int);
            }
            assert(pf as int + free_pages as int == nf as int) by (nonlinear_arith)
                requires (pf as int + free_pages as int) * b == (nf as int) * b && b > 0
                    && pf as int + free_pages as int >= 0 && nf as int >= 0,
            ;
        }
        let ghost pe = pf as int + free_pages as int;
        proof {
            lemma_list_bytes_zero(free_lists@, orders as int);
        }

        let mut cur: usize = pf;
        let mut left: usize = free_pages;
        while left > 0
            invariant
                map.wf(),
                frames@.len() == nf,
                nf == spec_num_frames(map.ram.size as int),
                nf < pow2(50),
                ram0 == map.ram.start.0 as int,
                b == BASE_SIZE as int,
                1 <= orders <= 50,
                pow2((orders - 1) as nat) <= nf < pow2(orders as nat),
                free_lists.wf(),
                free_lists@.len() == orders as int,
                pf as int <= cur as int,
                cur as int + left as int == pe,
                pe == nf as int,
                pe == pf as int + free_pages as int,
                (free_pages as int) * b == map.free_memory.size as int,
                pe * b + ram0 == map.free_memory.spec_end(),
                ram0 + (pf as int) * b == map.free_memory.start.0,
                left > 0 ==> aligned_to_pow2(
                    ram0 + (cur as int) * b,
                    (spec_log2_floor(left as nat) + 12) as nat,
                ),
                forall|x: int| 0 <= x < nf ==> (#[trigger] frames@[x]).state is Free,
                forall|k: int| 0 <= k < orders ==> free_lists@[k].len() <= 1,
                forall|k: int, j: int|
                    0 <= k < orders && 0 <= j < free_lists@[k].len() ==> {
                        let e = #[trigger] free_lists@[k][j] as int;
                        &&& pf as int <= e
                        &&& e + pow2(k as nat) <= cur as int
                        &&& frames@[e].order == k
                        &&& aligned_to_pow2(ram0 + e * b, (k + 12) as nat)
                        &&& left > 0 ==> left < pow2(k as nat)
                    },
                forall|k1: int, j1: int, k2: int, j2: int|
                    0 <= k1 < orders && 0 <= j1 < free_lists@[k1].len() && 0 <= k2 < orders
                        && 0 <= j2 < free_lists@[k2].len() && (k1 != k2 || j1 != j2)
                        ==> blocks_disjoint(
                        #[trigger] free_lists@[k1][j1] as int,
                        k1 as nat,
                        #[trigger] free_lists@[k2][j2] as int,
                        k2 as nat,
                    ),
                list_bytes(free_lists@, orders as int) == (free_pages - left) * b,
            decreases left,
    {
            proof {
                lemma_pow2_strictly_increases(50, 64);
                assert(left as int <= nf as int);
            }
            let k = log2_floor(left);
            proof {
                // The next block's order stays below the order count.
                if k as int >= orders {
                    if k as int > orders {
                        lemma_pow2_strictly_increases(orders as nat, k as nat);
                    }
                    assert(pow2(k as nat) >= pow2(orders as nat));
                    assert(left as int <= nf as int);
                    assert(false);
                }
            }
            let block_frames = pow2_usize(k);
            proof {
                lemma_pow2_pos(k as nat);
            }
            let fr = &mut frames[cur];
            fr.set_order(k);
            proof {
                assert(free_lists@[k as int].len() == 0) by {
                    if free_lists@[k as int].len() > 0 {
                        let e = free_lists@[k as int][0] as int;
                        assert(left < pow2(k as nat));
                        assert(pow2(k as nat) <= left);
                    }
                }
            }
            let ghost lists_before = free_lists@;
            free_lists.push_frame(cur, k);
            proof {
                lemma_list_bytes_update(
                    lists_before,
                    free_lists@,
                    k as int,
                    1,
                    orders as int,
                );
            }
            let ghost left_before = left as int;
            let ghost cur_before = cur as int;
            left = left - block_frames;
            cur = cur + block_frames;
            proof {
                lemma2_to64();
                lemma_pow2_adds(k as nat, 12);
                assert(pow2((k + 12) as nat) == pow2(k as nat) * 4096);
                // The new cursor address keeps the alignment of the block
                // just taken, which is enough for every smaller block.
                assert(ram0 + (cur as int) * b == (ram0 + cur_before * b) + pow2(k as nat) * b)
                    by (nonlinear_arith)
                    requires cur as int == cur_before + pow2(k as nat) && b > 0,
                ;
                let m = pow2((k + 12) as nat) as int;
                vstd::arithmetic::div_mod::lemma_mod_multiples_vanish(
                    1,
                    ram0 + cur_before * b,
                    m,
                );
                assert(aligned_to_pow2(ram0 + (cur as int) * b, (k + 12) as nat)) by {
                    assert(m * 1 + (ram0 + cur_before * b) == ram0 + (cur as int) * b);
                }
                if left > 0 {
                    let k2 = spec_log2_floor(left as nat);
                    lemma_pow2_adds(k as nat, 1);
                    lemma2_to64();
                    assert(pow2((k + 1) as nat) == 2 * pow2(k as nat));
                    assert(left < pow2(k as nat));
                    crate::arith::lemma_log2_floor_bounds(left as nat);
                    if k2 >= k as nat {
                        if k2 > k as nat {
                            lemma_pow2_strictly_increases(k as nat, k2);
                        }
                        assert(pow2(k2) <= left as nat);
                        assert(false);
                    }
                    lemma_aligned_weaken(
                        ram0 + (cur as int) * b,
                        (k + 12) as nat,
                        (k2 + 12) as nat,
                    );
                }
                assert forall|kk: int, j: int|
                    0 <= kk < orders && 0 <= j < free_lists@[kk].len() implies {
                        let e = #[trigger] free_lists@[kk][j] as int;
                        &&& pf as int <= e
                        &&& e + pow2(kk as nat) <= cur as int
                        &&& frames@[e].order == kk
                        &&& aligned_to_pow2(ram0 + e * b, (kk + 12) as nat)
                        &&& left > 0 ==> left < pow2(kk as nat)
                    } by {
                    let e = free_lists@[kk][j] as int;
                    if kk == k as int && j == 0 {
                        assert(e == cur_before);
                    } else {
                        assert(lists_before[kk].contains(free_lists@[kk][j]));
                        if left > 0 {
                            assert(left_before < pow2(kk as nat));
                        }
                    }
                }
                assert forall|k1: int, j1: int, k2: int, j2: int|
                    0 <= k1 < orders && 0 <= j1 < free_lists@[k1].len() && 0 <= k2 < orders
                        && 0 <= j2 < free_lists@[k2].len() && (k1 != k2 || j1 != j2)
                    implies blocks_disjoint(
                    #[trigger] free_lists@[k1][j1] as int,
                    k1 as nat,
                    #[trigger] free_lists@[k2][j2] as int,
                    k2 as nat,
                ) by {
                    let e1 = free_lists@[k1][j1] as int;
                    let e2 = free_lists@[k2][j2] as int;
                    if k1 == k as int && j1 == 0 {
                        assert(e1 == cur_before);
                        assert(e2 + pow2(k2 as nat) <= cur_before);
                    } else if k2 == k as int && j2 == 0 {
                        assert(e2 == cur_before);
                        assert(e1 + pow2(k1 as nat) <= cur_before);
                    } else {
                    }
                }
                assert(left_before - left as int == pow2(k as nat));
                assert(left_before <= free_pages as int);
                assert((free_pages - left) as int * b == (free_pages - left_before) * b
                    + pow2(k as nat) * b) by (nonlinear_arith)
                    requires left_before - left as int == pow2(k as nat) && b > 0
                        && left as int >= 0 && left_before <= free_pages as int,
                ;
            }
        }

        let mut hart_caches: Vec<HartCache<usize, Quartering>> = Vec::new();
        let mut h: usize = 0;
        while h < MAX_HARTS
            invariant
                hart_caches@.len() == h,
                h <= MAX_HARTS,
                forall|x: int| 0 <= x < h ==> (#[trigger] hart_caches@[x])@.len() == 0
                    && hart_caches@[x].spec_target() == DEFAULT_CACHE_SIZE,
            decreases MAX_HARTS - h,
        {
            hart_caches.push(HartCache::new(DEFAULT_CACHE_SIZE, Quartering));
            h = h + 1;
        }

        let r = FrameAllocator {
            map: *map,
            frames,
            free_lists,
            hart_caches,
            orders,
            allocated: Ghost(Map::empty()),
        };
        proof {
            assert forall|k: int, j: int|
                0 <= k < r.spec_lists().len() && 0 <= j < r.spec_lists()[k].len() implies {
                    let i = #[trigger] r.spec_lists()[k][j] as int;
                    &&& r.valid_block(i, k as nat)
                    &&& r.spec_frames()[i].state is Free
                    &&& r.spec_frames()[i].order == k
                } by {
                let i = r.spec_lists()[k][j] as int;
                lemma_pow2_pos(k as nat);
                assert(pf as int <= i && i + pow2(k as nat) <= pe);
                assert(i < nf as int);
                assert(frames@[i].state is Free);
                assert(frames@[i].order == k);
                assert(ram0 + i * b >= ram0 + (pf as int) * b) by (nonlinear_arith)
                    requires i >= pf as int && b > 0 && ram0 >= 0,
                ;
                assert(ram0 + (i + pow2(k as nat)) * b <= ram0 + pe * b) by (nonlinear_arith)
                    requires i + pow2(k as nat) <= pe && b > 0 && ram0 >= 0,
                ;
                assert((i + pow2(k as nat)) * b == i * b + pow2(k as nat) * b)
                    by (nonlinear_arith);
            }
            assert forall|k1: int, j1: int, k2: int, j2: int|
                0 <= k1 < r.spec_lists().len() && 0 <= j1 < r.spec_lists()[k1].len()
                    && 0 <= k2 < r.spec_lists().len() && 0 <= j2 < r.spec_lists()[k2].len()
                    && (k1 != k2 || j1 != j2)
                implies blocks_disjoint(
                    #[trigger] r.spec_lists()[k1][j1] as int,
                    k1 as nat,
                    #[trigger] r.spec_lists()[k2][j2] as int,
                    k2 as nat,
                ) by {
            }
            assert(r.wf()) by {
                assert forall|hh: int| 0 <= hh < r.spec_caches().len()
                    implies #[trigger] r.spec_caches()[hh].len() == 0 by {
                    assert(r.spec_caches()[hh] == hart_caches@[hh]@);
                }
                assert(r.cache_entries_wf());
                assert(r.no_free_buddy_pairs()) by {
                    assert forall|k: int, j1: int, j2: int|
                        0 <= k < r.spec_lists().len() && 0 <= j1 < r.spec_lists()[k].len()
                            && 0 <= j2 < r.spec_lists()[k].len()
                        implies r.addr_of(#[trigger] r.spec_lists()[k][j2] as int)
                            != spec_buddy_addr(
                            r.addr_of(#[trigger] r.spec_lists()[k][j1] as int),
                            k as nat,
                        ) by {
                        assert(j1 == 0 && j2 == 0);
                        let a = r.addr_of(r.spec_lists()[k][j1] as int);
                        lemma_pow2_adds(k as nat, 12);
                        lemma2_to64();
                        lemma_buddy_xor(a as u64, (k + 12) as nat);
                    }
                }
            }
            let cc = r.spec_caches();
            lemma_cache_bytes_zero(cc, cc.len() as int);
            assert(r.free_list_bytes() == map.free_memory.size as int) by {
                assert((free_pages as int) * b == map.free_memory.size as int);
            }
        }
        r
    }

    /// `self` with the block `(i, k)` recorded as handed out.
    pub closed spec fn with_allocated(self, i: int, k: nat) -> Self {
        FrameAllocator { allocated: Ghost(self.allocated@.insert(i, k)), ..self }
    }

    /// The struct produced by `with_allocated` differs only in its ghost
    /// allocation record.
    pub proof fn lemma_with_allocated(self, i: int, k: nat)
        ensures
            self.with_allocated(i, k).spec_map() == self.spec_map(),
            self.with_allocated(i, k).spec_frames() == self.spec_frames(),
            self.with_allocated(i, k).spec_free_lists() == self.spec_free_lists(),
            self.with_allocated(i, k).spec_caches() == self.spec_caches(),
            self.with_allocated(i, k).spec_orders() == self.spec_orders(),
            self.with_allocated(i, k).spec_allocated() == self.spec_allocated().insert(i, k),
    {
        assert(self.with_allocated(i, k).spec_caches() =~= self.spec_caches());
    }

    /// A floating free block that could be handed back to the allocator:
    /// recording it as allocated would leave the state well-formed.
    pub open spec fn block_insertable(self, i: int, k: nat) -> bool {
        &&& !self.spec_allocated().dom().contains(i)
        &&& self.spec_frames()[i].state is Free
        &&& self.spec_frames()[i].order == k
        &&& self.with_allocated(i, k).wf()
    }

    /// The buddy order that covers a request of `size` bytes: the smallest
    /// `k` with `2^k` base pages holding `size`.
    pub open spec fn spec_order_from_size(size: int) -> nat {
        if size <= BASE_SIZE {
            0
        } else {
            spec_log2_floor((((size + BASE_SIZE - 1) / (BASE_SIZE as int)) - 1) as nat) + 1
        }
    }

    /// Computes the buddy order for a request of `size` bytes.
    pub fn order_from_size(&self, size: usize) -> (r: u8)
        ensures
            r == Self::spec_order_from_size(size as int),
            size > 0 ==> size <= pow2(r as nat) * BASE_SIZE,
            r > 0 ==> pow2((r - 1) as nat) * BASE_SIZE < size,
            r <= 52,
    {
        if size == 0 {
            return 0;
        }
        let frames_needed = size / BASE_SIZE + (if size % BASE_SIZE != 0 { 1 } else { 0 });
        proof {
            lemma_fundamental_div_mod(size as int, BASE_SIZE as int);
        }
        if frames_needed <= 1 {
            proof {
                lemma2_to64();
            }
            return 0;
        }
        proof {
            vstd::layout::unsigned_int_max_values();
            lemma2_to64();
            vstd::arithmetic::power2::lemma2_to64_rest();
            assert(usize::BITS == 32 || usize::BITS == 64);
            lemma_pow2_strictly_increases(32, 64);
        }
        let l = log2_floor(frames_needed - 1);
        proof {
            if l as int >= 52 {
                lemma_pow2_strictly_increases(52, (l + 1) as nat);
                lemma_pow2_adds(52, 12);
                assert(pow2(64) == pow2(52) * pow2(12));
                assert((frames_needed - 1) as int * (BASE_SIZE as int) < pow2(64)) by {
                    assert((frames_needed - 1) as int <= (size as int) / (BASE_SIZE as int));
                    assert((size as int) / (BASE_SIZE as int) * (BASE_SIZE as int)
                        <= size as int) by (nonlinear_arith)
                        requires size as int >= 0,
                    ;
                    assert((frames_needed - 1) as int * (BASE_SIZE as int)
                        <= (size as int) / (BASE_SIZE as int) * (BASE_SIZE as int))
                        by (nonlinear_arith)
                        requires (frames_needed - 1) as int
                            <= (size as int) / (BASE_SIZE as int),
                    ;
                }
                assert(pow2(52) <= (frames_needed - 1) as nat);
                assert(pow2(52) * pow2(12) <= (frames_needed - 1) as int * (BASE_SIZE as int))
                    by (nonlinear_arith)
                    requires pow2(52) <= (frames_needed - 1) as int
                        && pow2(12) == BASE_SIZE as int,
                ;
                assert(false);
            }
            // The sandwich around `frames_needed` carries to byte counts.
            let fr = frames_needed as int;
            let bs = BASE_SIZE as int;
            lemma_pow2_adds(l as nat, 1);
            lemma2_to64();
            assert(fr <= pow2((l + 1) as nat));
            assert(size as int <= fr * bs) by (nonlinear_arith)
                requires size as int <= fr * bs || (size as int) % bs == 0
                    && fr == (size as int) / bs,
                    (size as int) % bs != 0 ==> fr == (size as int) / bs + 1,
                    (size as int) % bs == 0 ==> fr == (size as int) / bs,
                    size as int == bs * ((size as int) / bs) + (size as int) % bs,
                    0 <= (size as int) % bs < bs,
            ;
            assert(fr * bs <= pow2((l + 1) as nat) * bs) by (nonlinear_arith)
                requires fr <= pow2((l + 1) as nat) && bs > 0,
            ;
            assert(pow2(l as nat) <= fr - 1);
            assert(pow2(l as nat) * bs <= (fr - 1) * bs) by (nonlinear_arith)
                requires pow2(l as nat) <= fr - 1 && bs > 0,
            ;
            assert((fr - 1) * bs < size as int) by (nonlinear_arith)
                requires fr - 1 < (size as int + bs - 1) / bs || true,
                    (size as int) % bs != 0 ==> fr == (size as int) / bs + 1,
                    (size as int) % bs == 0 ==> fr == (size as int) / bs,
                    size as int == bs * ((size as int) / bs) + (size as int) % bs,
                    0 <= (size as int) % bs < bs,
                    fr >= 2,
            ;
        }
        l + 1
    }

    /// Takes a block of `requested_order` off the global pool, splitting a
    /// larger block if needed. On success the returned head is a floating
    /// free block of the requested order; list `f` (the first non-empty
    /// order at or above the request) has lost its front, and each order
    /// in between has gained the split-off upper buddy.
    #[verifier::rlimit(100)]
    #[verifier::spinoff_prover]
    fn prepare_block(&mut self, requested_order: u8) -> (r: Option<usize>)
        requires
            old(self).wf(),
        ensures
            final(self).wf(),
            final(self).spec_map() == old(self).spec_map(),
            final(self).spec_orders() == old(self).spec_orders(),
            final(self).spec_caches() == old(self).spec_caches(),
            final(self).spec_allocated() == old(self).spec_allocated(),
            final(self).spec_frames().len() == old(self).spec_frames().len(),
            forall|h: int| 0 <= h < MAX_HARTS
                ==> final(self).spec_cache_target(h) == old(self).spec_cache_target(h),
            forall|x: int| old(self).spec_allocated().dom().contains(x)
                ==> final(self).spec_frames()[x] == old(self).spec_frames()[x],
            r is None <==> spec_first_free(old(self).spec_lists(), requested_order as int)
                >= old(self).spec_lists().len(),
            r is None ==> final(self).spec_lists() == old(self).spec_lists()
                && final(self).spec_frames() == old(self).spec_frames(),
            r is Some ==> ({
                let f = spec_first_free(old(self).spec_lists(), requested_order as int);
                let h = r->0 as int;
                &&& h == old(self).spec_lists()[f][0]
                &&& final(self).block_insertable(h, requested_order as nat)
                &&& final(self).spec_lists() == split_lists(
                    old(self).spec_lists(),
                    h,
                    f,
                    requested_order as int,
                )
                &&& final(self).free_list_bytes() == old(self).free_list_bytes()
                    - pow2(requested_order as nat) * BASE_SIZE
                &&& forall|x: int| 0 <= x < final(self).spec_frames().len() && x != h
                    && !is_split_buddy(h, f, requested_order as int, x)
                    ==> final(self).spec_frames()[x] == old(self).spec_frames()[x]
            }),
    {
        let found = match self.free_lists.find_first_free_from(requested_order) {
            None => {
                proof {
                    let f = spec_first_free(old(self).spec_lists(), requested_order as int);
                    lemma_first_free_correct(old(self).spec_lists(), requested_order as int);
                }
                return None;
            },
            Some(f) => f,
        };
        proof {
            lemma_first_free_correct(old(self).spec_lists(), requested_order as int);
            assert(spec_first_free(old(self).spec_lists(), requested_order as int)
                == found as int);
        }
        let head = match self.free_lists.pop_frame(found) {
            Some(h) => h,
            None => vstd::pervasive::unreached(),
        };
        let ghost ll0 = old(self).spec_lists();
        let ghost fr0 = old(self).spec_frames();
        let ghost f = found as int;
        let ghost hh = head as int;
        proof {
            lemma_list_bytes_update(
                ll0,
                self.spec_lists(),
                f,
                -1,
                ll0.len() as int,
            );
            assert(self.spec_caches() =~= old(self).spec_caches());
            assert(old(self).spec_lists()[f][0] == head);
            assert(!old(self).spec_allocated().dom().contains(hh)) by {
                if old(self).spec_allocated().dom().contains(hh) {
                    assert(blocks_disjoint(
                        hh,
                        found as nat,
                        hh,
                        old(self).spec_allocated()[hh],
                    ));
                    lemma_pow2_pos(found as nat);
                    lemma_pow2_pos(old(self).spec_allocated()[hh]);
                    assert(false);
                }
            }
            self.lemma_with_allocated(hh, found as nat);
            assert(self.with_allocated(hh, found as nat).wf()) by {
                let w = self.with_allocated(hh, found as nat);
                assert forall|i: int| #[trigger] w.spec_allocated().dom().contains(i) implies {
                    &&& w.valid_block(i, w.spec_allocated()[i])
                    &&& w.spec_frames()[i].order == w.spec_allocated()[i]
                } by {
                    if i != hh {
                        assert(old(self).spec_allocated().dom().contains(i));
                    } else {
                        assert(old(self).valid_block(hh, found as nat));
                    }
                }
                assert(w.lists_disjoint()) by {
                    assert forall|k1: int, j1: int, k2: int, j2: int|
                        0 <= k1 < w.spec_lists().len() && 0 <= j1 < w.spec_lists()[k1].len()
                            && 0 <= k2 < w.spec_lists().len()
                            && 0 <= j2 < w.spec_lists()[k2].len() && (k1 != k2 || j1 != j2)
                        implies blocks_disjoint(
                        #[trigger] w.spec_lists()[k1][j1] as int,
                        k1 as nat,
                        #[trigger] w.spec_lists()[k2][j2] as int,
                        k2 as nat,
                    ) by {
                        let p1: int = if k1 == f { j1 + 1 } else { j1 };
                        let p2: int = if k2 == f { j2 + 1 } else { j2 };
                        assert(w.spec_lists()[k1][j1] == ll0[k1][p1]);
                        assert(w.spec_lists()[k2][j2] == ll0[k2][p2]);
                    }
                }
                assert(w.no_free_buddy_pairs()) by {
                    assert forall|k: int, j1: int, j2: int|
                        0 <= k < w.spec_lists().len() && 0 <= j1 < w.spec_lists()[k].len()
                            && 0 <= j2 < w.spec_lists()[k].len()
                        implies w.addr_of(#[trigger] w.spec_lists()[k][j2] as int)
                            != spec_buddy_addr(
                            w.addr_of(#[trigger] w.spec_lists()[k][j1] as int),
                            k as nat,
                        ) by {
                        let p1: int = if k == f { j1 + 1 } else { j1 };
                        let p2: int = if k == f { j2 + 1 } else { j2 };
                        assert(w.spec_lists()[k][j1] == ll0[k][p1]);
                        assert(w.spec_lists()[k][j2] == ll0[k][p2]);
                    }
                }
                assert(w.lists_caches_disjoint() && w.lists_allocated_disjoint()
                    && w.caches_allocated_disjoint() && w.allocated_disjoint()) by {
                    assert forall|k1: int, j1: int, hq: int, j2: int|
                        0 <= k1 < w.spec_lists().len() && 0 <= j1 < w.spec_lists()[k1].len()
                            && 0 <= hq < w.spec_caches().len()
                            && 0 <= j2 < w.spec_caches()[hq].len()
                        implies blocks_disjoint(
                        #[trigger] w.spec_lists()[k1][j1] as int,
                        k1 as nat,
                        #[trigger] w.spec_caches()[hq][j2] as int,
                        0,
                    ) by {
                        let p1: int = if k1 == f { j1 + 1 } else { j1 };
                        assert(w.spec_lists()[k1][j1] == ll0[k1][p1]);
                        assert(w.spec_caches()[hq][j2] == old(self).spec_caches()[hq][j2]);
                    }
                    assert forall|k1: int, j1: int, i: int|
                        0 <= k1 < w.spec_lists().len() && 0 <= j1 < w.spec_lists()[k1].len()
                            && #[trigger] w.spec_allocated().dom().contains(i)
                        implies blocks_disjoint(
                        #[trigger] w.spec_lists()[k1][j1] as int,
                        k1 as nat,
                        i,
                        w.spec_allocated()[i],
                    ) by {
                        let p1: int = if k1 == f { j1 + 1 } else { j1 };
                        assert(w.spec_lists()[k1][j1] == ll0[k1][p1]);
                        if i == hh {
                            assert(blocks_disjoint(
                                ll0[k1][p1] as int,
                                k1 as nat,
                                ll0[f][0] as int,
                                f as nat,
                            ));
                        } else {
                            assert(old(self).spec_allocated().dom().contains(i));
                        }
                    }
                    assert forall|hq: int, j1: int, i: int|
                        0 <= hq < w.spec_caches().len() && 0 <= j1 < w.spec_caches()[hq].len()
                            && #[trigger] w.spec_allocated().dom().contains(i)
                        implies blocks_disjoint(
                        #[trigger] w.spec_caches()[hq][j1] as int,
                        0,
                        i,
                        w.spec_allocated()[i],
                    ) by {
                        assert(w.spec_caches()[hq][j1] == old(self).spec_caches()[hq][j1]);
                        if i == hh {
                            assert(blocks_disjoint(
                                old(self).spec_caches()[hq][j1] as int,
                                0,
                                ll0[f][0] as int,
                                f as nat,
                            ));
                        } else {
                            assert(old(self).spec_allocated().dom().contains(i));
                        }
                    }
                    assert forall|i1: int, i2: int|
                        #[trigger] w.spec_allocated().dom().contains(i1)
                            && #[trigger] w.spec_allocated().dom().contains(i2) && i1 != i2
                        implies blocks_disjoint(
                        i1,
                        w.spec_allocated()[i1],
                        i2,
                        w.spec_allocated()[i2],
                    ) by {
                        if i1 == hh {
                            assert(old(self).spec_lists()[f][0] == head);
                            assert(old(self).spec_allocated().dom().contains(i2));
                            assert(blocks_disjoint(
                                hh,
                                found as nat,
                                i2,
                                old(self).spec_allocated()[i2],
                            ));
                        } else if i2 == hh {
                            assert(old(self).spec_lists()[f][0] == head);
                            assert(old(self).spec_allocated().dom().contains(i1));
                            assert(blocks_disjoint(
                                hh,
                                found as nat,
                                i1,
                                old(self).spec_allocated()[i1],
                            ));
                        } else {
                            assert(old(self).spec_allocated().dom().contains(i1));
                            assert(old(self).spec_allocated().dom().contains(i2));
                        }
                    }
                }
            }
        }
        let mut k = found;
        while k > requested_order
            invariant
                requested_order <= k <= found,
                found as int == f,
                head as int == hh,
                f < self.spec_lists().len(),
                self.spec_map() == old(self).spec_map(),
                self.spec_orders() == old(self).spec_orders(),
                self.spec_caches() == old(self).spec_caches(),
                self.hart_caches == old(self).hart_caches,
                self.spec_allocated() == old(self).spec_allocated(),
                self.spec_frames().len() == fr0.len(),
                ll0 == old(self).spec_lists(),
                fr0 == old(self).spec_frames(),
                0 <= hh && hh == ll0[f][0],
                !self.spec_allocated().dom().contains(hh),
                self.spec_frames()[hh].state is Free,
                self.spec_frames()[hh].order == k,
                self.with_allocated(hh, k as nat).wf(),
                self.spec_lists() =~= split_lists(ll0, hh, f, k as int),
                self.free_list_bytes() == list_bytes(ll0, ll0.len() as int)
                    - pow2(k as nat) * BASE_SIZE,
                forall|x: int| 0 <= x < fr0.len() && x != hh
                    && !is_split_buddy(hh, f, k as int, x)
                    ==> self.spec_frames()[x] == fr0[x],
                forall|x: int| old(self).spec_allocated().dom().contains(x)
                    ==> self.spec_frames()[x] == fr0[x],
            decreases k,
        {
            let new_k = k - 1;
            proof {
                self.lemma_with_allocated(hh, k as nat);
                assert(self.with_allocated(hh, k as nat).spec_allocated().dom().contains(hh));
                assert(self.with_allocated(hh, k as nat).valid_block(hh, k as nat));
                assert(hh + pow2(k as nat) <= spec_num_frames(
                    self.spec_map().ram.size as int,
                ));
                assert(spec_num_frames(self.spec_map().ram.size as int)
                    <= self.spec_map().ram.size as int);
                assert(self.spec_map().ram.size <= usize::MAX);
                lemma_pow2_strictly_increases(new_k as nat, k as nat);
                lemma_pow2_pos(k as nat);
            }
            let buddy_idx = head + pow2_usize(new_k);
            proof {
                lemma_pow2_pos(new_k as nat);
                lemma_pow2_adds(new_k as nat, 1);
                lemma2_to64();
                assert(self.with_allocated(hh, k as nat).valid_block(hh, k as nat));
                assert(hh + pow2(k as nat) <= fr0.len());
                assert(pow2(k as nat) == 2 * pow2(new_k as nat));
            }
            {
                let fr = &mut self.frames[head];
                fr.set_order(new_k);
            }
            {
                let fr = &mut self.frames[buddy_idx];
                fr.set_order(new_k);
                fr.set_state(State::Free);
            }
            let ghost pre = *self;
            let ghost bb = buddy_idx as int;
            let ghost ram0 = self.spec_map().ram.start.0 as int;
            let ghost bs = BASE_SIZE as int;
            proof {
                // Geometry of the two halves.
                lemma_pow2_adds(new_k as nat, 12);
                lemma_pow2_adds(k as nat, 12);
                assert(pow2((new_k + 12) as nat) == pow2(new_k as nat) * 4096);
                assert(pow2((k + 12) as nat) == pow2(k as nat) * 4096);
                lemma_mul_distrib(hh, pow2(new_k as nat) as int);
                assert(pre.addr_of(bb) == pre.addr_of(hh) + pow2((new_k + 12) as nat));
                crate::arith::lemma_split_halves(pre.addr_of(hh), (k + 12) as nat);
                assert(aligned_to_pow2(pre.addr_of(bb), (new_k + 12) as nat));
                lemma_mul_distrib(bb, pow2(new_k as nat) as int);
            }
            self.free_lists.push_frame(buddy_idx, new_k);
            proof {
                let w0 = pre.with_allocated(hh, k as nat);
                pre.lemma_with_allocated(hh, k as nat);
                self.lemma_with_allocated(hh, new_k as nat);
                let w = self.with_allocated(hh, new_k as nat);
                let llp = pre.spec_lists();
                let lln = self.spec_lists();
                // The new lists are the previous ones with the buddy
                // prepended at `new_k`.
                assert(lln[new_k as int] == seq![buddy_idx].add(llp[new_k as int]));
                assert(lln =~= split_lists(ll0, hh, f, new_k as int)) by {
                    assert forall|x: int| 0 <= x < lln.len()
                        implies lln[x] == split_lists(ll0, hh, f, new_k as int)[x] by {
                        if x != new_k as int {
                            assert(lln[x] == llp[x]);
                        }
                    }
                }
                // Everything placed is untouched by the frame updates: the
                // old block (hh, k) is disjoint from all placed blocks, and
                // both updated descriptors lie inside it.
                assert(0 <= hh && hh < bb && bb < hh + pow2(k as nat));
                assert forall|x: int|
                    0 <= x < self.spec_frames().len() && x != hh
                        && !is_split_buddy(hh, f, new_k as int, x)
                    implies self.spec_frames()[x] == fr0[x] by {
                    assert(x != bb);
                    assert(!is_split_buddy(hh, f, k as int, x)) by {
                        if is_split_buddy(hh, f, k as int, x) {
                            let j = choose|j: int|
                                k as int <= j < f && x == hh + #[trigger] pow2(j as nat);
                            assert(new_k as int <= j < f && x == hh + pow2(j as nat));
                        }
                    }
                    assert(pre.spec_frames()[x] == fr0[x]);
                }
                assert(is_split_buddy(hh, f, new_k as int, bb)) by {
                    let j: int = new_k as int;
                    assert(j < f);
                    assert(bb == hh + pow2(j as nat));
                }
                // Well-formedness with the shrunk floating block.
                assert(w.wf()) by {
                    assert(w.valid_block(bb, new_k as nat));
                    assert(w.valid_block(hh, new_k as nat));
                    assert(w.spec_frames()[bb].state is Free
                        && w.spec_frames()[bb].order == new_k);
                    assert forall|k1: int, j1: int|
                        0 <= k1 < w.spec_lists().len() && 0 <= j1 < w.spec_lists()[k1].len()
                        implies {
                            let i = #[trigger] w.spec_lists()[k1][j1] as int;
                            &&& w.valid_block(i, k1 as nat)
                            &&& w.spec_frames()[i].state is Free
                            &&& w.spec_frames()[i].order == k1
                        } by {
                        let i = w.spec_lists()[k1][j1] as int;
                        if k1 == new_k as int && j1 == 0 {
                        } else {
                            let jp: int = if k1 == new_k as int { j1 - 1 } else { j1 };
                            assert(w.spec_lists()[k1][j1] == llp[k1][jp]);
                            assert(blocks_disjoint(i, k1 as nat, hh, k as nat));
                            lemma_pow2_pos(k1 as nat);
                            assert(i != hh && i != bb);
                        }
                    }
                    assert forall|h1: int, j1: int|
                        0 <= h1 < w.spec_caches().len() && 0 <= j1 < w.spec_caches()[h1].len()
                        implies {
                            let i = #[trigger] w.spec_caches()[h1][j1] as int;
                            &&& w.valid_block(i, 0)
                            &&& w.spec_frames()[i].state is Free
                            &&& w.spec_frames()[i].order == 0
                        } by {
                        let i = w.spec_caches()[h1][j1] as int;
                        assert(w0.spec_caches()[h1][j1] == w.spec_caches()[h1][j1]);
                        assert(blocks_disjoint(i, 0, hh, k as nat));
                        lemma_pow2_pos(0);
                        assert(i != hh && i != bb);
                    }
                    assert forall|i: int| #[trigger] w.spec_allocated().dom().contains(i)
                        implies {
                            &&& w.valid_block(i, w.spec_allocated()[i])
                            &&& w.spec_frames()[i].order == w.spec_allocated()[i]
                        } by {
                        if i == hh {
                        } else {
                            assert(w0.spec_allocated().dom().contains(i));
                            assert(blocks_disjoint(i, w0.spec_allocated()[i], hh, k as nat));
                            lemma_pow2_pos(w0.spec_allocated()[i]);
                            assert(i != hh && i != bb);
                        }
                    }
                    // Disjointness: the buddy half sits inside the old
                    // block, which was disjoint from everything placed.
                    assert forall|k1: int, j1: int, k2: int, j2: int|
                        0 <= k1 < w.spec_lists().len() && 0 <= j1 < w.spec_lists()[k1].len()
                            && 0 <= k2 < w.spec_lists().len()
                            && 0 <= j2 < w.spec_lists()[k2].len() && (k1 != k2 || j1 != j2)
                        implies blocks_disjoint(
                        #[trigger] w.spec_lists()[k1][j1] as int,
                        k1 as nat,
                        #[trigger] w.spec_lists()[k2][j2] as int,
                        k2 as nat,
                    ) by {
                        lemma_pow2_adds(new_k as nat, 1);
                        lemma2_to64();
                        if k1 == new_k as int && j1 == 0 {
                            if !(k2 == new_k as int && j2 == 0) {
                                let jp: int = if k2 == new_k as int { j2 - 1 } else { j2 };
                                assert(w.spec_lists()[k2][j2] == llp[k2][jp]);
                                assert(blocks_disjoint(
                                    w.spec_lists()[k2][j2] as int,
                                    k2 as nat,
                                    hh,
                                    k as nat,
                                ));
                            }
                        } else if k2 == new_k as int && j2 == 0 {
                            let jp: int = if k1 == new_k as int { j1 - 1 } else { j1 };
                            assert(w.spec_lists()[k1][j1] == llp[k1][jp]);
                            assert(blocks_disjoint(
                                w.spec_lists()[k1][j1] as int,
                                k1 as nat,
                                hh,
                                k as nat,
                            ));
                        } else {
                            let p1: int = if k1 == new_k as int { j1 - 1 } else { j1 };
                            let p2: int = if k2 == new_k as int { j2 - 1 } else { j2 };
                            assert(w.spec_lists()[k1][j1] == llp[k1][p1]);
                            assert(w.spec_lists()[k2][j2] == llp[k2][p2]);
                        }
                    }
                    assert forall|kq: int, j: int, hq: int, j2: int|
                        0 <= kq < w.spec_lists().len() && 0 <= j < w.spec_lists()[kq].len()
                            && 0 <= hq < w.spec_caches().len()
                            && 0 <= j2 < w.spec_caches()[hq].len()
                        implies blocks_disjoint(
                        #[trigger] w.spec_lists()[kq][j] as int,
                        kq as nat,
                        #[trigger] w.spec_caches()[hq][j2] as int,
                        0,
                    ) by {
                        assert(w.spec_caches()[hq][j2] == w0.spec_caches()[hq][j2]);
                        if kq == new_k as int && j == 0 {
                            assert(blocks_disjoint(
                                w0.spec_caches()[hq][j2] as int,
                                0,
                                hh,
                                k as nat,
                            ));
                        } else {
                            let jp: int = if kq == new_k as int { j - 1 } else { j };
                            assert(w.spec_lists()[kq][j] == llp[kq][jp]);
                        }
                    }
                    assert forall|kq: int, j: int, i: int|
                        0 <= kq < w.spec_lists().len() && 0 <= j < w.spec_lists()[kq].len()
                            && #[trigger] w.spec_allocated().dom().contains(i)
                        implies blocks_disjoint(
                        #[trigger] w.spec_lists()[kq][j] as int,
                        kq as nat,
                        i,
                        w.spec_allocated()[i],
                    ) by {
                        if kq == new_k as int && j == 0 {
                            if i == hh {
                            } else {
                                assert(w0.spec_allocated().dom().contains(i));
                                assert(blocks_disjoint(i, w0.spec_allocated()[i], hh, k as nat));
                            }
                        } else {
                            let jp: int = if kq == new_k as int { j - 1 } else { j };
                            assert(w.spec_lists()[kq][j] == llp[kq][jp]);
                            if i == hh {
                                assert(blocks_disjoint(
                                    llp[kq][jp] as int,
                                    kq as nat,
                                    hh,
                                    k as nat,
                                ));
                            } else {
                                assert(w0.spec_allocated().dom().contains(i));
                            }
                        }
                    }
                    assert forall|hq: int, j: int, i: int|
                        0 <= hq < w.spec_caches().len() && 0 <= j < w.spec_caches()[hq].len()
                            && #[trigger] w.spec_allocated().dom().contains(i)
                        implies blocks_disjoint(
                        #[trigger] w.spec_caches()[hq][j] as int,
                        0,
                        i,
                        w.spec_allocated()[i],
                    ) by {
                        assert(w.spec_caches()[hq][j] == w0.spec_caches()[hq][j]);
                        if i == hh {
                            assert(blocks_disjoint(
                                w0.spec_caches()[hq][j] as int,
                                0,
                                hh,
                                k as nat,
                            ));
                        } else {
                            assert(w0.spec_allocated().dom().contains(i));
                        }
                    }
                    assert forall|i1: int, i2: int|
                        #[trigger] w.spec_allocated().dom().contains(i1)
                            && #[trigger] w.spec_allocated().dom().contains(i2) && i1 != i2
                        implies blocks_disjoint(
                        i1,
                        w.spec_allocated()[i1],
                        i2,
                        w.spec_allocated()[i2],
                    ) by {
                        if i1 == hh {
                            assert(w0.spec_allocated().dom().contains(i2));
                            assert(blocks_disjoint(i2, w0.spec_allocated()[i2], hh, k as nat));
                        } else if i2 == hh {
                            assert(w0.spec_allocated().dom().contains(i1));
                            assert(blocks_disjoint(i1, w0.spec_allocated()[i1], hh, k as nat));
                        } else {
                            assert(w0.spec_allocated().dom().contains(i1));
                            assert(w0.spec_allocated().dom().contains(i2));
                        }
                    }
                    // No buddy pairs: the new entry's buddy is the lower
                    // half, which is not on any list.
                    assert forall|kq: int, j1: int, j2: int|
                        0 <= kq < w.spec_lists().len() && 0 <= j1 < w.spec_lists()[kq].len()
                            && 0 <= j2 < w.spec_lists()[kq].len()
                        implies w.addr_of(#[trigger] w.spec_lists()[kq][j2] as int)
                            != spec_buddy_addr(
                            w.addr_of(#[trigger] w.spec_lists()[kq][j1] as int),
                            kq as nat,
                        ) by {
                        let i1 = w.spec_lists()[kq][j1] as int;
                        let i2 = w.spec_lists()[kq][j2] as int;
                        if kq == new_k as int && (j1 == 0 || j2 == 0) {
                            // The buddy address of the pushed upper half is
                            // the lower half's address.
                            let a_h = w.addr_of(hh);
                            let m = pow2((new_k + 12) as nat) as int;
                            vstd::layout::unsigned_int_max_values();
                            vstd::arithmetic::power2::lemma2_to64_rest();
                            assert(usize::BITS == 32 || usize::BITS == 64);
                            lemma_pow2_strictly_increases(32, 64);
                            assert(a_h + m <= usize::MAX);
                            assert(usize::MAX as int <= u64::MAX as int);
                            vstd::bits::lemma_u64_pow2_no_overflow((new_k + 12) as nat);
                            vstd::bits::lemma_u64_pow2_no_overflow((new_k + 13) as nat);
                            assert(w.addr_of(bb) == a_h + m);
                            // The lower half is aligned to twice the block,
                            // so the upper half sits at an odd multiple.
                            assert(aligned_to_pow2(a_h, (new_k + 13) as nat));
                            lemma_pow2_adds((new_k + 12) as nat, 1);
                            lemma2_to64();
                            let m2 = pow2((new_k + 13) as nat) as int;
                            assert(m2 == 2 * m);
                            lemma_fundamental_div_mod(a_h, m2);
                            let q = a_h / m2;
                            lemma_pow2_pos((new_k + 12) as nat);
                            assert(a_h == m2 * q);
                            assert(m2 * q == q * m2) by (nonlinear_arith);
                            assert(a_h + m == q * m2 + m);
                            lemma_fundamental_div_mod_converse(a_h + m, m2, q, m);
                            assert((a_h + m) % m2 == m);
                            lemma_aligned_weaken(a_h, (new_k + 13) as nat, (new_k + 12) as nat);
                            assert(aligned_to_pow2(a_h + m, (new_k + 12) as nat)) by {
                                lemma_fundamental_div_mod(a_h, m);
                                let qm = a_h / m;
                                assert(a_h == m * qm);
                                assert((qm + 1) * m == m * qm + m) by (nonlinear_arith);
                                lemma_fundamental_div_mod_converse(a_h + m, m, qm + 1, 0);
                            }
                            lemma_buddy_xor((a_h + m) as u64, (new_k + 12) as nat);
                            let bx = spec_buddy_addr(a_h + m, new_k as nat);
                            assert(bx == (((a_h + m) as u64) ^ (pow2((new_k + 12) as nat) as u64)) as int);
                            if bx > a_h + m {
                                assert((a_h + m) % m2 == 0);
                                lemma_pow2_pos((new_k + 12) as nat);
                                assert(false);
                            }
                            assert(bx < a_h + m);
                            assert(a_h + m == bx + m);
                            assert(spec_buddy_addr(w.addr_of(bb), new_k as nat)
                                == w.addr_of(hh));
                            if j1 == 0 && j2 == 0 {
                                assert(i1 == bb && i2 == bb);
                                assert(w.addr_of(bb) != w.addr_of(hh));
                            } else if j1 == 0 {
                                // i2 is an old entry; its address cannot be
                                // the lower half's.
                                assert(w.spec_lists()[kq][j2] == llp[kq][j2 - 1]);
                                assert(blocks_disjoint(i2, kq as nat, hh, k as nat));
                                lemma_pow2_pos(kq as nat);
                                assert(i2 != hh);
                                lemma_index_addr_order(i2, hh);
                                assert(w.addr_of(i2) != w.addr_of(hh));
                            } else {
                                // j2 == 0: the buddy address of an old entry
                                // i1 equals addr(bb) only if i1 is the lower
                                // half, which is not placed.
                                assert(w.spec_lists()[kq][j1] == llp[kq][j1 - 1]);
                                lemma_buddy_xor(w.addr_of(i1) as u64, (new_k + 12) as nat);
                                if w.addr_of(i2) == spec_buddy_addr(
                                    w.addr_of(i1),
                                    new_k as nat,
                                ) {
                                    assert(spec_buddy_addr(w.addr_of(i2), new_k as nat)
                                        == w.addr_of(i1));
                                    assert(w.addr_of(i1) == w.addr_of(hh));
                                    assert(blocks_disjoint(i1, kq as nat, hh, k as nat));
                                    lemma_pow2_pos(kq as nat);
                                    assert(i1 != hh);
                                    lemma_index_addr_order(i1, hh);
                                    assert(false);
                                }
                            }
                        } else {
                            let p1: int = if kq == new_k as int { j1 - 1 } else { j1 };
                            let p2: int = if kq == new_k as int { j2 - 1 } else { j2 };
                            assert(w.spec_lists()[kq][j1] == llp[kq][p1]);
                            assert(w.spec_lists()[kq][j2] == llp[kq][p2]);
                        }
                    }
                }
                assert forall|x: int| old(self).spec_allocated().dom().contains(x)
                    implies self.spec_frames()[x] == fr0[x] by {
                    assert(w0.spec_allocated().dom().contains(x));
                    assert(w0.spec_allocated().dom().contains(hh));
                    assert(x != hh);
                    assert(blocks_disjoint(x, w0.spec_allocated()[x], hh, k as nat));
                    lemma_pow2_pos(w0.spec_allocated()[x]);
                    assert(x != bb);
                    assert(pre.spec_frames()[x] == fr0[x]);
                }
                // Byte accounting: half the block went back to the lists.
                lemma_list_bytes_update(
                    llp,
                    lln,
                    new_k as int,
                    1,
                    llp.len() as int,
                );
                lemma_pow2_adds(new_k as nat, 1);
                lemma2_to64();
                assert(pow2(k as nat) * BASE_SIZE == 2 * (pow2(new_k as nat) * BASE_SIZE))
                    by (nonlinear_arith)
                    requires pow2(k as nat) == 2 * pow2(new_k as nat),
                ;
            }
            k = new_k;
        }
        proof {
            self.lemma_with_allocated(hh, requested_order as nat);
            let w = self.with_allocated(hh, requested_order as nat);
            assert(w.wf());
            assert(self.wf()) by {
                assert(self.spec_lists() == w.spec_lists());
                assert(self.spec_caches() == w.spec_caches());
                assert(self.spec_frames() == w.spec_frames());
                assert forall|i: int| #[trigger] self.spec_allocated().dom().contains(i)
                    implies {
                        &&& self.valid_block(i, self.spec_allocated()[i])
                        &&& self.spec_frames()[i].order == self.spec_allocated()[i]
                    } by {
                    assert(w.spec_allocated().dom().contains(i));
                }
                assert forall|i1: int, i2: int|
                    #[trigger] self.spec_allocated().dom().contains(i1)
                        && #[trigger] self.spec_allocated().dom().contains(i2) && i1 != i2
                    implies blocks_disjoint(
                    i1,
                    self.spec_allocated()[i1],
                    i2,
                    self.spec_allocated()[i2],
                ) by {
                    assert(w.spec_allocated().dom().contains(i1));
                    assert(w.spec_allocated().dom().contains(i2));
                }
                assert forall|kq: int, j: int, i: int|
                    0 <= kq < self.spec_lists().len() && 0 <= j < self.spec_lists()[kq].len()
                        && #[trigger] self.spec_allocated().dom().contains(i)
                    implies blocks_disjoint(
                    #[trigger] self.spec_lists()[kq][j] as int,
                    kq as nat,
                    i,
                    self.spec_allocated()[i],
                ) by {
                    assert(w.spec_allocated().dom().contains(i));
                }
                assert forall|hq: int, j: int, i: int|
                    0 <= hq < self.spec_caches().len() && 0 <= j < self.spec_caches()[hq].len()
                        && #[trigger] self.spec_allocated().dom().contains(i)
                    implies blocks_disjoint(
                    #[trigger] self.spec_caches()[hq][j] as int,
                    0,
                    i,
                    self.spec_allocated()[i],
                ) by {
                    assert(w.spec_allocated().dom().contains(i));
                }
            }
        }
        Some(head)
    }

    /// Returns a floating free block to the global free lists, coalescing
    /// with its buddy as long as the buddy is a free block of the same
    /// order; the merged block's head is the lower-addressed half.
    #[verifier::rlimit(100)]
    #[verifier::spinoff_prover]
    fn coalesce_into(&mut self, idx: usize, k: u8)
        requires
            old(self).block_insertable(idx as int, k as nat),
        ensures
            final(self).wf(),
            final(self).spec_map() == old(self).spec_map(),
            final(self).spec_orders() == old(self).spec_orders(),
            final(self).spec_caches() == old(self).spec_caches(),
            final(self).spec_allocated() == old(self).spec_allocated(),
            final(self).spec_frames().len() == old(self).spec_frames().len(),
            final(self).free_list_bytes() == old(self).free_list_bytes()
                + pow2(k as nat) * BASE_SIZE,
            forall|x: int| old(self).spec_allocated().dom().contains(x)
                ==> final(self).spec_frames()[x] == old(self).spec_frames()[x],
            final(self).spec_lists() == spec_coalesce(
                old(self).spec_map(),
                old(self).spec_orders(),
                old(self).spec_lists(),
                old(self).spec_frames(),
                idx as int,
                k as nat,
            ).0,
            final(self).spec_frames() == spec_coalesce(
                old(self).spec_map(),
                old(self).spec_orders(),
                old(self).spec_lists(),
                old(self).spec_frames(),
                idx as int,
                k as nat,
            ).1,
            forall|h: int| 0 <= h < MAX_HARTS
                ==> final(self).spec_cache_target(h) == old(self).spec_cache_target(h),
        decreases 64 - k,
    {
        let ghost w0 = old(self).with_allocated(idx as int, k as nat);
        proof {
            old(self).lemma_with_allocated(idx as int, k as nat);
            assert(w0.spec_allocated().dom().contains(idx as int));
            assert(w0.valid_block(idx as int, k as nat));
        }
        let ghost ii = idx as int;
        let ghost ram0 = self.spec_map().ram.start.0 as int;
        let ghost bs = BASE_SIZE as int;
        if k + 1 < self.orders {
            proof {
                lemma_pow2_pos(k as nat);
            }
            let addr = self.map.frame_ref_to_address(idx);
            proof {
                lemma_pow2_adds(k as nat, 12);
                lemma2_to64();
                assert(pow2((k + 12) as nat) == pow2(k as nat) * 4096);
                lemma_pow2_strictly_increases(k as nat, (k + 12) as nat);
                assert(pow2(k as nat) * BASE_SIZE + self.spec_map().free_memory.start.0
                    <= usize::MAX);
            }
            let block_bytes = pow2_usize(k) * BASE_SIZE;
            let buddy_addr_usize = addr.as_usize() ^ block_bytes;
            let ghost a = self.addr_of(ii);
            let ghost m = pow2((k + 12) as nat) as int;
            proof {
                vstd::layout::unsigned_int_max_values();
                vstd::arithmetic::power2::lemma2_to64_rest();
                assert(usize::BITS == 32 || usize::BITS == 64);
                lemma_pow2_strictly_increases(32, 64);
                assert(usize::MAX as int <= u64::MAX as int);
                vstd::bits::lemma_u64_pow2_no_overflow((k + 12) as nat);
                assert(addr.0 == a);
                assert(block_bytes == m);
                assert((addr.0 as u64) ^ (block_bytes as u64)
                    == ((addr.0 ^ block_bytes) as u64));
                assert(buddy_addr_usize as int == spec_buddy_addr(a, k as nat));
                lemma_buddy_xor(a as u64, (k + 12) as nat);
            }
            let ghost ba = spec_buddy_addr(a, k as nat);
            let buddy_addr = PhysicalAddress::new(buddy_addr_usize);
            let within = self.map.free_memory.contains(buddy_addr);
            if within {
                proof {
                    assert(self.spec_map().free_memory.spec_end()
                        == self.spec_map().ram.spec_end());
                    assert(self.spec_map().ram.spec_contains(ba));
                }
                let buddy_idx = self.map.frame_idx_from_address(buddy_addr);
                let ghost bi = buddy_idx as int;
                proof {
                    // The buddy address is page-aligned, so the index
                    // translation is exact.
                    lemma_aligned_weaken(ba, (k + 12) as nat, 12);
                    lemma2_to64();
                    lemma_mod_diff_zero(ba, ram0, bs);
                    lemma_fundamental_div_mod(ba - ram0, bs);
                    assert(bi == (ba - ram0) / bs);
                    assert(ram0 + bi * bs == ba) by (nonlinear_arith)
                        requires bi == (ba - ram0) / bs && (ba - ram0) % bs == 0 && bs > 0
                            && ba >= ram0,
                    ;
                    assert(self.addr_of(bi) == ba);
                }
                let buddy_ok = {
                    let bf = &self.frames[buddy_idx];
                    bf.is_free() && bf.order() == k
                };
                let listed = self.free_lists.contains_frame(k, buddy_idx);
                if buddy_ok && listed {
                    proof {
                        // The buddy heads a listed free block of order `k`;
                        // merging yields an aligned block of order `k + 1`.
                        let pos = choose|p: int|
                            0 <= p < self.spec_lists()[k as int].len()
                                && self.spec_lists()[k as int][p] == buddy_idx;
                        assert(w0.valid_block(bi, k as nat));
                        assert(blocks_disjoint(bi, k as nat, ii, k as nat));
                        lemma_pow2_pos(k as nat);
                        assert(bi != ii);
                        lemma_mul_distrib(ii, pow2(k as nat) as int);
                        lemma_mul_distrib(bi, pow2(k as nat) as int);
                        if ba > a {
                            assert(ba == a + m);
                            assert(bi == ii + pow2(k as nat)) by (nonlinear_arith)
                                requires bi * bs == ii * bs + pow2(k as nat) * bs && bs > 0,
                            ;
                        } else {
                            assert(a == ba + m);
                            assert(ii == bi + pow2(k as nat)) by (nonlinear_arith)
                                requires ii * bs == bi * bs + pow2(k as nat) * bs && bs > 0,
                            ;
                        }
                    }
                    let ghost lists_pre = self.spec_lists();
                    self.free_lists.remove_frame(buddy_idx, k);
                    let lower = if buddy_addr_usize < addr.as_usize() {
                        buddy_idx
                    } else {
                        idx
                    };
                    {
                        let fr = &mut self.frames[lower];
                        fr.set_order(k + 1);
                    }
                    proof {
                        let lo: int = if ba < a { bi } else { ii };
                        let hi: int = if ba < a { ii } else { bi };
                        assert(lower as int == lo);
                        assert(hi == lo + pow2(k as nat));
                        lemma_pow2_adds(k as nat, 1);
                        lemma2_to64();
                        assert(pow2((k + 1) as nat) == 2 * pow2(k as nat));
                        lemma_pow2_adds((k + 1) as nat, 12);
                        lemma_pow2_adds((k + 12) as nat, 1);
                        assert(pow2((k + 13) as nat) == 2 * m);
                        assert(pow2((k + 13) as nat) == pow2((k + 1) as nat) * 4096);
                        self.lemma_with_allocated(lo, (k + 1) as nat);
                        let w = self.with_allocated(lo, (k + 1) as nat);
                        let llp = lists_pre;
                        let lln = self.spec_lists();
                        let ghost p = choose|p: int|
                            0 <= p < llp[k as int].len() && llp[k as int][p] == buddy_idx
                                && lln[k as int] == llp[k as int].remove(p);
                        // Index mapping for the list the buddy left.
                        assert forall|j: int| 0 <= j < lln[k as int].len()
                            implies #[trigger] lln[k as int][j] == llp[k as int][
                            if j < p { j } else { j + 1 }
                        ] by {
                        }
                        assert(w.wf()) by {
                            assert(w.valid_block(lo, (k + 1) as nat)) by {
                                lemma_mul_distrib(lo, pow2(k as nat) as int);
                                lemma_mul_distrib(lo, pow2((k + 1) as nat) as int);
                                lemma_mul_distrib(hi, pow2(k as nat) as int);
                                if ba < a {
                                    lemma_buddy_xor(ba as u64, (k + 12) as nat);
                                } else {
                                    lemma_buddy_xor(a as u64, (k + 12) as nat);
                                }
                            }
                            assert forall|k1: int, j1: int|
                                0 <= k1 < w.spec_lists().len()
                                    && 0 <= j1 < w.spec_lists()[k1].len()
                                implies {
                                    let i = #[trigger] w.spec_lists()[k1][j1] as int;
                                    &&& w.valid_block(i, k1 as nat)
                                    &&& w.spec_frames()[i].state is Free
                                    &&& w.spec_frames()[i].order == k1
                                } by {
                                let i = w.spec_lists()[k1][j1] as int;
                                let pj: int = if k1 == k as int && j1 >= p { j1 + 1 } else {
                                    j1
                                };
                                assert(w.spec_lists()[k1][j1] == llp[k1][pj]);
                                assert(blocks_disjoint(i, k1 as nat, ii, k as nat));
                                assert(blocks_disjoint(i, k1 as nat, bi, k as nat)
                                    || (k1 == k as int && llp[k1][pj] == buddy_idx));
                                lemma_pow2_pos(k1 as nat);
                                assert(i != lo);
                            }
                            assert forall|h1: int, j1: int|
                                0 <= h1 < w.spec_caches().len()
                                    && 0 <= j1 < w.spec_caches()[h1].len()
                                implies {
                                    let i = #[trigger] w.spec_caches()[h1][j1] as int;
                                    &&& w.valid_block(i, 0)
                                    &&& w.spec_frames()[i].state is Free
                                    &&& w.spec_frames()[i].order == 0
                                } by {
                                let i = w.spec_caches()[h1][j1] as int;
                                assert(w0.spec_caches()[h1][j1] == w.spec_caches()[h1][j1]);
                                assert(blocks_disjoint(i, 0, ii, k as nat));
                                assert(blocks_disjoint(i, 0, bi, k as nat));
                                lemma_pow2_pos(0);
                                assert(i != lo);
                            }
                            assert forall|i: int|
                                #[trigger] w.spec_allocated().dom().contains(i)
                                implies {
                                    &&& w.valid_block(i, w.spec_allocated()[i])
                                    &&& w.spec_frames()[i].order == w.spec_allocated()[i]
                                } by {
                                if i != lo {
                                    assert(w0.spec_allocated().dom().contains(i));
                                    assert(blocks_disjoint(
                                        i,
                                        w0.spec_allocated()[i],
                                        ii,
                                        k as nat,
                                    ));
                                    assert(blocks_disjoint(
                                        i,
                                        w0.spec_allocated()[i],
                                        bi,
                                        k as nat,
                                    ));
                                    lemma_pow2_pos(w0.spec_allocated()[i]);
                                    assert(i != lo);
                                }
                            }
                            assert forall|k1: int, j1: int, k2: int, j2: int|
                                0 <= k1 < w.spec_lists().len()
                                    && 0 <= j1 < w.spec_lists()[k1].len()
                                    && 0 <= k2 < w.spec_lists().len()
                                    && 0 <= j2 < w.spec_lists()[k2].len()
                                    && (k1 != k2 || j1 != j2)
                                implies blocks_disjoint(
                                #[trigger] w.spec_lists()[k1][j1] as int,
                                k1 as nat,
                                #[trigger] w.spec_lists()[k2][j2] as int,
                                k2 as nat,
                            ) by {
                                let p1: int = if k1 == k as int && j1 >= p { j1 + 1 } else {
                                    j1
                                };
                                let p2: int = if k2 == k as int && j2 >= p { j2 + 1 } else {
                                    j2
                                };
                                assert(w.spec_lists()[k1][j1] == llp[k1][p1]);
                                assert(w.spec_lists()[k2][j2] == llp[k2][p2]);
                            }
                            assert forall|kq: int, j: int, hq: int, j2: int|
                                0 <= kq < w.spec_lists().len()
                                    && 0 <= j < w.spec_lists()[kq].len()
                                    && 0 <= hq < w.spec_caches().len()
                                    && 0 <= j2 < w.spec_caches()[hq].len()
                                implies blocks_disjoint(
                                #[trigger] w.spec_lists()[kq][j] as int,
                                kq as nat,
                                #[trigger] w.spec_caches()[hq][j2] as int,
                                0,
                            ) by {
                                let p1: int = if kq == k as int && j >= p { j + 1 } else {
                                    j
                                };
                                assert(w.spec_lists()[kq][j] == llp[kq][p1]);
                                assert(w.spec_caches()[hq][j2] == w0.spec_caches()[hq][j2]);
                            }
                            assert forall|kq: int, j: int, i: int|
                                0 <= kq < w.spec_lists().len()
                                    && 0 <= j < w.spec_lists()[kq].len()
                                    && #[trigger] w.spec_allocated().dom().contains(i)
                                implies blocks_disjoint(
                                #[trigger] w.spec_lists()[kq][j] as int,
                                kq as nat,
                                i,
                                w.spec_allocated()[i],
                            ) by {
                                let p1: int = if kq == k as int && j >= p { j + 1 } else {
                                    j
                                };
                                assert(w.spec_lists()[kq][j] == llp[kq][p1]);
                                if i == lo {
                                    assert(blocks_disjoint(
                                        llp[kq][p1] as int,
                                        kq as nat,
                                        ii,
                                        k as nat,
                                    ));
                                    assert(blocks_disjoint(
                                        llp[kq][p1] as int,
                                        kq as nat,
                                        bi,
                                        k as nat,
                                    ) || llp[kq][p1] == buddy_idx);
                                    assert(llp[kq][p1] as int != bi || kq != k as int
                                        || p1 == p);
                                } else {
                                    assert(w0.spec_allocated().dom().contains(i));
                                }
                            }
                            assert forall|hq: int, j: int, i: int|
                                0 <= hq < w.spec_caches().len()
                                    && 0 <= j < w.spec_caches()[hq].len()
                                    && #[trigger] w.spec_allocated().dom().contains(i)
                                implies blocks_disjoint(
                                #[trigger] w.spec_caches()[hq][j] as int,
                                0,
                                i,
                                w.spec_allocated()[i],
                            ) by {
                                assert(w.spec_caches()[hq][j] == w0.spec_caches()[hq][j]);
                                if i == lo {
                                    assert(blocks_disjoint(
                                        w0.spec_caches()[hq][j] as int,
                                        0,
                                        ii,
                                        k as nat,
                                    ));
                                    assert(blocks_disjoint(
                                        w0.spec_caches()[hq][j] as int,
                                        0,
                                        bi,
                                        k as nat,
                                    ));
                                } else {
                                    assert(w0.spec_allocated().dom().contains(i));
                                }
                            }
                            assert forall|i1: int, i2: int|
                                #[trigger] w.spec_allocated().dom().contains(i1)
                                    && #[trigger] w.spec_allocated().dom().contains(i2)
                                    && i1 != i2
                                implies blocks_disjoint(
                                i1,
                                w.spec_allocated()[i1],
                                i2,
                                w.spec_allocated()[i2],
                            ) by {
                                if i1 == lo {
                                    assert(w0.spec_allocated().dom().contains(i2));
                                    assert(blocks_disjoint(
                                        i2,
                                        w0.spec_allocated()[i2],
                                        ii,
                                        k as nat,
                                    ));
                                    assert(blocks_disjoint(
                                        i2,
                                        w0.spec_allocated()[i2],
                                        bi,
                                        k as nat,
                                    ));
                                } else if i2 == lo {
                                    assert(w0.spec_allocated().dom().contains(i1));
                                    assert(blocks_disjoint(
                                        i1,
                                        w0.spec_allocated()[i1],
                                        ii,
                                        k as nat,
                                    ));
                                    assert(blocks_disjoint(
                                        i1,
                                        w0.spec_allocated()[i1],
                                        bi,
                                        k as nat,
                                    ));
                                } else {
                                    assert(w0.spec_allocated().dom().contains(i1));
                                    assert(w0.spec_allocated().dom().contains(i2));
                                }
                            }
                            assert forall|kq: int, j1: int, j2: int|
                                0 <= kq < w.spec_lists().len()
                                    && 0 <= j1 < w.spec_lists()[kq].len()
                                    && 0 <= j2 < w.spec_lists()[kq].len()
                                implies w.addr_of(#[trigger] w.spec_lists()[kq][j2] as int)
                                    != spec_buddy_addr(
                                    w.addr_of(#[trigger] w.spec_lists()[kq][j1] as int),
                                    kq as nat,
                                ) by {
                                let p1: int = if kq == k as int && j1 >= p { j1 + 1 } else {
                                    j1
                                };
                                let p2: int = if kq == k as int && j2 >= p { j2 + 1 } else {
                                    j2
                                };
                                assert(w.spec_lists()[kq][j1] == llp[kq][p1]);
                                assert(w.spec_lists()[kq][j2] == llp[kq][p2]);
                            }
                        }
                        lemma_list_bytes_update(
                            llp,
                            lln,
                            k as int,
                            -1,
                            llp.len() as int,
                        );
                        assert forall|x: int| old(self).spec_allocated().dom().contains(x)
                            implies self.spec_frames()[x] == old(self).spec_frames()[x] by {
                            assert(w0.spec_allocated().dom().contains(x));
                            assert(blocks_disjoint(
                                x,
                                w0.spec_allocated()[x],
                                ii,
                                k as nat,
                            ));
                            assert(blocks_disjoint(x, w0.spec_allocated()[x], bi, k as nat));
                            lemma_pow2_pos(w0.spec_allocated()[x]);
                            assert(x != lo);
                        }
                        assert(pow2((k + 1) as nat) * BASE_SIZE
                            == 2 * (pow2(k as nat) * BASE_SIZE)) by (nonlinear_arith)
                            requires pow2((k + 1) as nat) == 2 * pow2(k as nat),
                        ;
                    }
                    let ghost before_rec = *self;
                    self.coalesce_into(lower, k + 1);
                    proof {
                        // One unfolding of the coalesce model matches this
                        // merge step.
                        let m = old(self).spec_map();
                        let oo = old(self).spec_orders();
                        let ll = old(self).spec_lists();
                        let ff = old(self).spec_frames();
                        let a0 = m.ram.start.0 + (idx as int) * BASE_SIZE;
                        let ba0 = spec_buddy_addr(a0, k as nat);
                        let bi0 = (ba0 - m.ram.start.0) / (BASE_SIZE as int);
                        assert(a0 == a && ba0 == ba);
                        assert(bi0 == bi);
                        assert(k + 1 < oo && (k as int) < ll.len());
                        assert(m.free_memory.spec_contains(ba0));
                        assert(0 <= bi0 < ff.len());
                        assert(ff[bi0].state is Free && ff[bi0].order == k);
                        assert(ll[k as int].contains(bi0 as usize));
                        assert(spec_can_merge(m, oo, ll, ff, idx as int, k as nat));
                        // The removed position is the only occurrence.
                        let p = choose|p: int|
                            0 <= p < lists_pre[k as int].len()
                                && lists_pre[k as int][p] == buddy_idx
                                && before_rec.spec_lists()[k as int]
                                == lists_pre[k as int].remove(p);
                        assert forall|j: int|
                            0 <= j < ll[k as int].len() && ll[k as int][j] == buddy_idx
                            implies j == p by {
                            if j != p {
                                assert(blocks_disjoint(
                                    ll[k as int][j] as int,
                                    k as nat,
                                    ll[k as int][p] as int,
                                    k as nat,
                                ));
                                lemma_pow2_pos(k as nat);
                            }
                        }
                        let q = ll[k as int].index_of(buddy_idx);
                        assert(ll[k as int][q] == buddy_idx);
                        assert(q == p);
                        let lists2 = ll.update(
                            k as int,
                            ll[k as int].remove(ll[k as int].index_of(bi0 as usize)),
                        );
                        assert(before_rec.spec_lists() =~= lists2);
                        let lower0: int = if ba0 < a0 { bi0 } else { idx as int };
                        assert(lower0 == lower as int);
                        let frames2 = ff.update(
                            lower0,
                            Frame { order: (k + 1) as u8, ..ff[lower0] },
                        );
                        assert(before_rec.spec_frames() =~= frames2);
                        lemma_coalesce_step(m, oo, ll, ff, idx as int, k as nat);
                    }
                    return;
                }
                proof {
                    // The buddy is not a listed free block of order `k`:
                    // had it been, its descriptor flags would match and the
                    // merge branch would have been taken.
                    assert(self.no_listed_buddy(ii, k as nat)) by {
                        assert forall|j: int|
                            0 <= j < self.spec_lists()[k as int].len()
                            implies self.addr_of(
                            #[trigger] self.spec_lists()[k as int][j] as int,
                        ) != spec_buddy_addr(self.addr_of(ii), k as nat) by {
                            let e = self.spec_lists()[k as int][j] as int;
                            if self.addr_of(e) == ba {
                                lemma_index_addr_order(e, bi);
                                assert(e == bi);
                                assert(self.spec_lists()[k as int].contains(buddy_idx));
                                assert(listed);
                                assert(buddy_ok);
                                assert(false);
                            }
                        }
                    }
                }
            } else {
                proof {
                    // The buddy address falls outside the free pool, where
                    // no free block lives.
                    assert(self.no_listed_buddy(ii, k as nat)) by {
                        assert forall|j: int|
                            0 <= j < self.spec_lists()[k as int].len()
                            implies self.addr_of(
                            #[trigger] self.spec_lists()[k as int][j] as int,
                        ) != spec_buddy_addr(self.addr_of(ii), k as nat) by {
                            let e = self.spec_lists()[k as int][j] as int;
                            lemma_pow2_pos(k as nat);
                            assert(self.valid_block(e, k as nat));
                            assert(pow2(k as nat) * BASE_SIZE > 0) by (nonlinear_arith)
                                requires pow2(k as nat) > 0,
                            ;
                            assert(self.spec_map().free_memory.start.0 <= self.addr_of(e)
                                < self.spec_map().free_memory.spec_end());
                            assert(!self.spec_map().free_memory.spec_contains(ba));
                        }
                    }
                }
            }
        }
        let ghost llp = self.spec_lists();
        proof {
            if k + 1 >= self.spec_orders() {
                // At the top order no listed buddy can exist: two adjacent
                // top-order blocks would outgrow the pool.
                self.lemma_no_top_order_buddy(idx, k);
            }
        }
        self.free_lists.push_frame(idx, k);
        proof {
            Self::lemma_push_wf(*old(self), *self, idx, k);
            lemma_list_bytes_update(llp, self.spec_lists(), k as int, 1, llp.len() as int);
            // The coalesce model takes its base case: no merge applies, so
            // the block is pushed as-is.
            let m = old(self).spec_map();
            let oo = old(self).spec_orders();
            let ll = old(self).spec_lists();
            let ff = old(self).spec_frames();
            let a0 = m.ram.start.0 + (idx as int) * BASE_SIZE;
            let ba0 = spec_buddy_addr(a0, k as nat);
            let bi0 = (ba0 - m.ram.start.0) / (BASE_SIZE as int);
            if k + 1 < oo && m.free_memory.spec_contains(ba0) && 0 <= bi0 < ff.len()
                && ff[bi0].state is Free && ff[bi0].order == k
                && ll[k as int].contains(bi0 as usize) {
                // Then the merge branch would have been taken.
                assert(false);
            }
            assert(!spec_can_merge(m, oo, ll, ff, idx as int, k as nat));
            lemma_coalesce_base(m, oo, ll, ff, idx as int, k as nat);
            assert(self.spec_lists() =~= ll.update(
                k as int,
                seq![idx].add(ll[k as int]),
            ));
        }
    }

    /// Every listed block of order `k` at the buddy address of `(i, k)`
    /// would have been merged; this predicate says none is listed.
    pub open spec fn no_listed_buddy(&self, i: int, k: nat) -> bool {
        forall|j: int| 0 <= j < self.spec_lists()[k as int].len()
            ==> self.addr_of(#[trigger] self.spec_lists()[k as int][j] as int)
                != spec_buddy_addr(self.addr_of(i), k)
    }

    /// At the top order, capacity rules out a listed buddy.
    proof fn lemma_no_top_order_buddy(&self, idx: usize, k: u8)
        requires
            self.block_insertable(idx as int, k as nat),
            k + 1 >= self.spec_orders(),
        ensures
            self.no_listed_buddy(idx as int, k as nat),
    {
        let ii = idx as int;
        self.lemma_with_allocated(ii, k as nat);
        let w = self.with_allocated(ii, k as nat);
        assert(w.spec_allocated().dom().contains(ii));
        assert(w.valid_block(ii, k as nat));
        let a = self.addr_of(ii);
        lemma_pow2_adds(k as nat, 12);
        lemma2_to64();
        lemma_buddy_xor(a as u64, (k + 12) as nat);
        let ba = spec_buddy_addr(a, k as nat);
        let m = pow2((k + 12) as nat) as int;
        assert forall|j: int| 0 <= j < self.spec_lists()[k as int].len()
            implies self.addr_of(#[trigger] self.spec_lists()[k as int][j] as int) != ba by {
            let e = self.spec_lists()[k as int][j] as int;
            if self.addr_of(e) == ba {
                assert(w.valid_block(e, k as nat));
                // The two adjacent blocks of order `k` would span
                // `2^(k+1)` pages, more than the whole pool holds.
                assert(ba == a + m || a == ba + m);
                let fs = self.spec_map().free_memory.start.0 as int;
                let fe = self.spec_map().free_memory.spec_end();
                assert(a + m <= fe && ba + m <= fe && a >= fs && ba >= fs);
                assert(fe - fs >= 2 * m);
                // But the pool has fewer than `2^orders` pages.
                assert(self.spec_map().free_memory.size as int
                    <= self.spec_map().ram.size as int);
                lemma_fundamental_div_mod(self.spec_map().ram.size as int, BASE_SIZE as int);
                assert(spec_num_frames(self.spec_map().ram.size as int)
                    < pow2(self.spec_orders() as nat));
                if self.spec_orders() as nat <= (k + 1) as nat {
                    if (self.spec_orders() as nat) < (k + 1) as nat {
                        lemma_pow2_strictly_increases(
                            self.spec_orders() as nat,
                            (k + 1) as nat,
                        );
                    }
                }
                lemma_pow2_adds((k + 1) as nat, 12);
                lemma_pow2_adds(k as nat, 1);
                assert(pow2((k + 1) as nat) == 2 * pow2(k as nat));
                assert(2 * m == pow2((k + 1) as nat) * (BASE_SIZE as int)) by (nonlinear_arith)
                    requires m == pow2(k as nat) * (BASE_SIZE as int)
                        && pow2((k + 1) as nat) == 2 * pow2(k as nat),
                ;
                assert(pow2(self.spec_orders() as nat) <= pow2((k + 1) as nat));
                assert(spec_num_frames(self.spec_map().ram.size as int) * (BASE_SIZE as int)
                    == self.spec_map().ram.size as int);
                assert(spec_num_frames(self.spec_map().ram.size as int) * (BASE_SIZE as int)
                    < pow2((k + 1) as nat) * (BASE_SIZE as int)) by (nonlinear_arith)
                    requires spec_num_frames(self.spec_map().ram.size as int)
                        < pow2((k + 1) as nat) && BASE_SIZE as int > 0,
                ;
                assert(false);
            }
        }
    }

    /// Pushing a floating free block whose buddy is not listed keeps the
    /// allocator well-formed.
    proof fn lemma_push_wf(pre: Self, post: Self, idx: usize, k: u8)
        requires
            pre.block_insertable(idx as int, k as nat),
            pre.no_listed_buddy(idx as int, k as nat),
            post.spec_map() == pre.spec_map(),
            post.spec_frames() == pre.spec_frames(),
            post.spec_caches() == pre.spec_caches(),
            post.spec_orders() == pre.spec_orders(),
            post.spec_allocated() == pre.spec_allocated(),
            post.spec_free_lists().wf(),
            post.spec_lists().len() == pre.spec_lists().len(),
            post.spec_lists()[k as int] == seq![idx].add(pre.spec_lists()[k as int]),
            forall|x: int| 0 <= x < pre.spec_lists().len() && x != k
                ==> post.spec_lists()[x] == pre.spec_lists()[x],
        ensures
            post.wf(),
    {
        let ii = idx as int;
        let llp = pre.spec_lists();
        pre.lemma_with_allocated(ii, k as nat);
        let w0 = pre.with_allocated(ii, k as nat);
        assert(w0.spec_allocated().dom().contains(ii));
        assert(w0.valid_block(ii, k as nat));
        let a = pre.addr_of(ii);
        lemma_pow2_adds(k as nat, 12);
        lemma2_to64();
        assert forall|k1: int, j1: int|
            0 <= k1 < post.spec_lists().len() && 0 <= j1 < post.spec_lists()[k1].len()
            implies {
                let i = #[trigger] post.spec_lists()[k1][j1] as int;
                &&& post.valid_block(i, k1 as nat)
                &&& post.spec_frames()[i].state is Free
                &&& post.spec_frames()[i].order == k1
            } by {
            if k1 == k as int && j1 == 0 {
            } else {
                let pj: int = if k1 == k as int { j1 - 1 } else { j1 };
                assert(post.spec_lists()[k1][j1] == llp[k1][pj]);
            }
        }
        assert forall|k1: int, j1: int, k2: int, j2: int|
            0 <= k1 < post.spec_lists().len() && 0 <= j1 < post.spec_lists()[k1].len()
                && 0 <= k2 < post.spec_lists().len() && 0 <= j2 < post.spec_lists()[k2].len()
                && (k1 != k2 || j1 != j2)
            implies blocks_disjoint(
            #[trigger] post.spec_lists()[k1][j1] as int,
            k1 as nat,
            #[trigger] post.spec_lists()[k2][j2] as int,
            k2 as nat,
        ) by {
            if k1 == k as int && j1 == 0 {
                if !(k2 == k as int && j2 == 0) {
                    let pj: int = if k2 == k as int { j2 - 1 } else { j2 };
                    assert(post.spec_lists()[k2][j2] == llp[k2][pj]);
                    assert(blocks_disjoint(llp[k2][pj] as int, k2 as nat, ii, k as nat));
                }
            } else if k2 == k as int && j2 == 0 {
                let pj: int = if k1 == k as int { j1 - 1 } else { j1 };
                assert(post.spec_lists()[k1][j1] == llp[k1][pj]);
                assert(blocks_disjoint(llp[k1][pj] as int, k1 as nat, ii, k as nat));
            } else {
                let p1: int = if k1 == k as int { j1 - 1 } else { j1 };
                let p2: int = if k2 == k as int { j2 - 1 } else { j2 };
                assert(post.spec_lists()[k1][j1] == llp[k1][p1]);
                assert(post.spec_lists()[k2][j2] == llp[k2][p2]);
            }
        }
        assert forall|kq: int, j: int, hq: int, j2: int|
            0 <= kq < post.spec_lists().len() && 0 <= j < post.spec_lists()[kq].len()
                && 0 <= hq < post.spec_caches().len() && 0 <= j2 < post.spec_caches()[hq].len()
            implies blocks_disjoint(
            #[trigger] post.spec_lists()[kq][j] as int,
            kq as nat,
            #[trigger] post.spec_caches()[hq][j2] as int,
            0,
        ) by {
            assert(post.spec_caches()[hq][j2] == w0.spec_caches()[hq][j2]);
            if kq == k as int && j == 0 {
                assert(blocks_disjoint(w0.spec_caches()[hq][j2] as int, 0, ii, k as nat));
            } else {
                let pj: int = if kq == k as int { j - 1 } else { j };
                assert(post.spec_lists()[kq][j] == llp[kq][pj]);
            }
        }
        assert forall|kq: int, j: int, i: int|
            0 <= kq < post.spec_lists().len() && 0 <= j < post.spec_lists()[kq].len()
                && #[trigger] post.spec_allocated().dom().contains(i)
            implies blocks_disjoint(
            #[trigger] post.spec_lists()[kq][j] as int,
            kq as nat,
            i,
            post.spec_allocated()[i],
        ) by {
            assert(w0.spec_allocated().dom().contains(i));
            if kq == k as int && j == 0 {
                assert(blocks_disjoint(i, w0.spec_allocated()[i], ii, k as nat));
            } else {
                let pj: int = if kq == k as int { j - 1 } else { j };
                assert(post.spec_lists()[kq][j] == llp[kq][pj]);
            }
        }
        assert forall|hq: int, j: int, i: int|
            0 <= hq < post.spec_caches().len() && 0 <= j < post.spec_caches()[hq].len()
                && #[trigger] post.spec_allocated().dom().contains(i)
            implies blocks_disjoint(
            #[trigger] post.spec_caches()[hq][j] as int,
            0,
            i,
            post.spec_allocated()[i],
        ) by {
            assert(post.spec_caches()[hq][j] == w0.spec_caches()[hq][j]);
            assert(w0.spec_allocated().dom().contains(i));
        }
        assert forall|i1: int, i2: int|
            #[trigger] post.spec_allocated().dom().contains(i1)
                && #[trigger] post.spec_allocated().dom().contains(i2) && i1 != i2
            implies blocks_disjoint(
            i1,
            post.spec_allocated()[i1],
            i2,
            post.spec_allocated()[i2],
        ) by {
            assert(w0.spec_allocated().dom().contains(i1));
            assert(w0.spec_allocated().dom().contains(i2));
        }
        assert forall|kq: int, j1: int, j2: int|
            0 <= kq < post.spec_lists().len() && 0 <= j1 < post.spec_lists()[kq].len()
                && 0 <= j2 < post.spec_lists()[kq].len()
            implies post.addr_of(#[trigger] post.spec_lists()[kq][j2] as int)
                != spec_buddy_addr(
                post.addr_of(#[trigger] post.spec_lists()[kq][j1] as int),
                kq as nat,
            ) by {
            let i1 = post.spec_lists()[kq][j1] as int;
            let i2 = post.spec_lists()[kq][j2] as int;
            if kq == k as int && (j1 == 0 || j2 == 0) {
                lemma_buddy_xor(a as u64, (k + 12) as nat);
                let ba = spec_buddy_addr(a, k as nat);
                if j1 == 0 && j2 == 0 {
                    assert(post.addr_of(ii) != ba);
                } else if j1 == 0 {
                    assert(post.spec_lists()[kq][j2] == llp[kq][j2 - 1]);
                    assert(pre.addr_of(llp[kq][j2 - 1] as int) != ba);
                } else {
                    assert(post.spec_lists()[kq][j1] == llp[kq][j1 - 1]);
                    lemma_buddy_xor(post.addr_of(i1) as u64, (k + 12) as nat);
                    if post.addr_of(i2) == spec_buddy_addr(post.addr_of(i1), k as nat) {
                        assert(spec_buddy_addr(post.addr_of(i2), k as nat)
                            == post.addr_of(i1));
                        assert(pre.addr_of(llp[kq][j1 - 1] as int) != ba);
                        assert(false);
                    }
                }
            } else {
                let p1: int = if kq == k as int { j1 - 1 } else { j1 };
                let p2: int = if kq == k as int { j2 - 1 } else { j2 };
                assert(post.spec_lists()[kq][j1] == llp[kq][p1]);
                assert(post.spec_lists()[kq][j2] == llp[kq][p2]);
            }
        }
        assert(post.spec_map().wf());
        assert(post.spec_frames().len() == spec_num_frames(post.spec_map().ram.size as int));
        assert(post.spec_lists().len() == post.spec_orders() as int);
        assert(1 <= post.spec_orders() <= 51);
        assert(spec_num_frames(post.spec_map().ram.size as int)
            < pow2(post.spec_orders() as nat));
        assert(post.spec_caches().len() == MAX_HARTS);
        assert(post.list_entries_wf());
        assert(post.cache_entries_wf());
        assert forall|i: int| #[trigger] post.spec_allocated().dom().contains(i)
            implies {
                &&& post.valid_block(i, post.spec_allocated()[i])
                &&& post.spec_frames()[i].order == post.spec_allocated()[i]
            } by {
            assert(w0.spec_allocated().dom().contains(i));
        }
        assert(post.allocated_wf());
        assert(post.lists_disjoint());
        assert(post.caches_disjoint());
        assert(post.allocated_disjoint());
        assert(post.lists_caches_disjoint());
        assert(post.lists_allocated_disjoint());
        assert(post.caches_allocated_disjoint());
        assert(post.no_free_buddy_pairs());
    }

    /// Hands a floating free block to the global free lists, bypassing the
    /// per-hart caches; used on the release path whenever caching is off
    /// or an over-full cache is being drained.
    pub fn free_to_global(&mut self, frame_idx: usize)
        requires
            old(self).block_insertable(
                frame_idx as int,
                old(self).spec_frames()[frame_idx as int].order as nat,
            ),
            frame_idx < old(self).spec_frames().len(),
        ensures
            final(self).wf(),
            final(self).spec_map() == old(self).spec_map(),
            final(self).spec_orders() == old(self).spec_orders(),
            final(self).spec_caches() == old(self).spec_caches(),
            final(self).spec_allocated() == old(self).spec_allocated(),
            final(self).spec_frames().len() == old(self).spec_frames().len(),
            final(self).free_list_bytes() == old(self).free_list_bytes()
                + pow2(old(self).spec_frames()[frame_idx as int].order as nat) * BASE_SIZE,
            forall|x: int| old(self).spec_allocated().dom().contains(x)
                ==> final(self).spec_frames()[x] == old(self).spec_frames()[x],
            final(self).spec_lists() == spec_coalesce(
                old(self).spec_map(),
                old(self).spec_orders(),
                old(self).spec_lists(),
                old(self).spec_frames(),
                frame_idx as int,
                old(self).spec_frames()[frame_idx as int].order as nat,
            ).0,
            final(self).spec_frames() == spec_coalesce(
                old(self).spec_map(),
                old(self).spec_orders(),
                old(self).spec_lists(),
                old(self).spec_frames(),
                frame_idx as int,
                old(self).spec_frames()[frame_idx as int].order as nat,
            ).1,
            forall|h: int| 0 <= h < MAX_HARTS
                ==> final(self).spec_cache_target(h) == old(self).spec_cache_target(h),
    {
        let k = self.frames[frame_idx].order();
        self.coalesce_into(frame_idx, k);
    }

    /// The list, cache, frame and allocation components of two states are
    /// identical.
    pub open spec fn same_state(a: Self, b: Self) -> bool {
        &&& a.spec_lists() == b.spec_lists()
        &&& a.spec_caches() == b.spec_caches()
        &&& a.spec_frames() == b.spec_frames()
        &&& a.spec_allocated() == b.spec_allocated()
        &&& a.spec_map() == b.spec_map()
        &&& a.spec_orders() == b.spec_orders()
    }

    /// Stashing a floating free page in a hart cache keeps the allocator
    /// well-formed.
    proof fn lemma_cache_push_wf(pre: Self, post: Self, hart: int, idx: usize)
        requires
            pre.block_insertable(idx as int, 0),
            0 <= hart < MAX_HARTS,
            post.spec_map() == pre.spec_map(),
            post.spec_frames() == pre.spec_frames(),
            post.spec_lists() == pre.spec_lists(),
            post.spec_free_lists() == pre.spec_free_lists(),
            post.spec_orders() == pre.spec_orders(),
            post.spec_allocated() == pre.spec_allocated(),
            post.spec_caches().len() == pre.spec_caches().len(),
            post.spec_caches()[hart] == seq![idx].add(pre.spec_caches()[hart]),
            forall|x: int| 0 <= x < pre.spec_caches().len() && x != hart
                ==> post.spec_caches()[x] == pre.spec_caches()[x],
        ensures
            post.wf(),
    {
        let ii = idx as int;
        pre.lemma_with_allocated(ii, 0);
        let w0 = pre.with_allocated(ii, 0);
        assert(w0.spec_allocated().dom().contains(ii));
        assert(w0.valid_block(ii, 0));
        assert forall|h1: int, j1: int|
            0 <= h1 < post.spec_caches().len() && 0 <= j1 < post.spec_caches()[h1].len()
            implies {
                let i = #[trigger] post.spec_caches()[h1][j1] as int;
                &&& post.valid_block(i, 0)
                &&& post.spec_frames()[i].state is Free
                &&& post.spec_frames()[i].order == 0
            } by {
            if h1 == hart && j1 == 0 {
            } else {
                let pj: int = if h1 == hart { j1 - 1 } else { j1 };
                assert(post.spec_caches()[h1][j1] == pre.spec_caches()[h1][pj]);
            }
        }
        assert forall|h1: int, j1: int, h2: int, j2: int|
            0 <= h1 < post.spec_caches().len() && 0 <= j1 < post.spec_caches()[h1].len()
                && 0 <= h2 < post.spec_caches().len() && 0 <= j2 < post.spec_caches()[h2].len()
                && (h1 != h2 || j1 != j2)
            implies #[trigger] post.spec_caches()[h1][j1]
                != #[trigger] post.spec_caches()[h2][j2] by {
            if h1 == hart && j1 == 0 {
                if !(h2 == hart && j2 == 0) {
                    let pj: int = if h2 == hart { j2 - 1 } else { j2 };
                    assert(post.spec_caches()[h2][j2] == pre.spec_caches()[h2][pj]);
                    assert(blocks_disjoint(pre.spec_caches()[h2][pj] as int, 0, ii, 0));
                    lemma2_to64();
                }
            } else if h2 == hart && j2 == 0 {
                let pj: int = if h1 == hart { j1 - 1 } else { j1 };
                assert(post.spec_caches()[h1][j1] == pre.spec_caches()[h1][pj]);
                assert(blocks_disjoint(pre.spec_caches()[h1][pj] as int, 0, ii, 0));
                lemma2_to64();
            } else {
                let p1: int = if h1 == hart { j1 - 1 } else { j1 };
                let p2: int = if h2 == hart { j2 - 1 } else { j2 };
                assert(post.spec_caches()[h1][j1] == pre.spec_caches()[h1][p1]);
                assert(post.spec_caches()[h2][j2] == pre.spec_caches()[h2][p2]);
            }
        }
        assert forall|kq: int, j: int, hq: int, j2: int|
            0 <= kq < post.spec_lists().len() && 0 <= j < post.spec_lists()[kq].len()
                && 0 <= hq < post.spec_caches().len() && 0 <= j2 < post.spec_caches()[hq].len()
            implies blocks_disjoint(
            #[trigger] post.spec_lists()[kq][j] as int,
            kq as nat,
            #[trigger] post.spec_caches()[hq][j2] as int,
            0,
        ) by {
            if hq == hart && j2 == 0 {
                assert(blocks_disjoint(post.spec_lists()[kq][j] as int, kq as nat, ii, 0));
            } else {
                let pj: int = if hq == hart { j2 - 1 } else { j2 };
                assert(post.spec_caches()[hq][j2] == pre.spec_caches()[hq][pj]);
            }
        }
        assert forall|hq: int, j: int, i: int|
            0 <= hq < post.spec_caches().len() && 0 <= j < post.spec_caches()[hq].len()
                && #[trigger] post.spec_allocated().dom().contains(i)
            implies blocks_disjoint(
            #[trigger] post.spec_caches()[hq][j] as int,
            0,
            i,
            post.spec_allocated()[i],
        ) by {
            assert(w0.spec_allocated().dom().contains(i));
            if hq == hart && j == 0 {
                assert(blocks_disjoint(i, w0.spec_allocated()[i], ii, 0));
            } else {
                let pj: int = if hq == hart { j - 1 } else { j };
                assert(post.spec_caches()[hq][j] == pre.spec_caches()[hq][pj]);
            }
        }
        assert forall|i: int| #[trigger] post.spec_allocated().dom().contains(i)
            implies {
                &&& post.valid_block(i, post.spec_allocated()[i])
                &&& post.spec_frames()[i].order == post.spec_allocated()[i]
            } by {
            assert(w0.spec_allocated().dom().contains(i));
        }
        assert forall|i1: int, i2: int|
            #[trigger] post.spec_allocated().dom().contains(i1)
                && #[trigger] post.spec_allocated().dom().contains(i2) && i1 != i2
            implies blocks_disjoint(
            i1,
            post.spec_allocated()[i1],
            i2,
            post.spec_allocated()[i2],
        ) by {
            assert(w0.spec_allocated().dom().contains(i1));
            assert(w0.spec_allocated().dom().contains(i2));
        }
        assert forall|kq: int, j: int, i: int|
            0 <= kq < post.spec_lists().len() && 0 <= j < post.spec_lists()[kq].len()
                && #[trigger] post.spec_allocated().dom().contains(i)
            implies blocks_disjoint(
            #[trigger] post.spec_lists()[kq][j] as int,
            kq as nat,
            i,
            post.spec_allocated()[i],
        ) by {
            assert(w0.spec_allocated().dom().contains(i));
        }
    }

    /// Marking a floating free block as handed out keeps the allocator
    /// well-formed.
    proof fn lemma_finalize_wf(pre: Self, post: Self, idx: usize, k: u8)
        requires
            pre.block_insertable(idx as int, k as nat),
            post.spec_map() == pre.spec_map(),
            post.spec_lists() == pre.spec_lists(),
            post.spec_free_lists() == pre.spec_free_lists(),
            post.spec_caches() == pre.spec_caches(),
            post.spec_orders() == pre.spec_orders(),
            post.spec_allocated() == pre.spec_allocated().insert(idx as int, k as nat),
            post.spec_frames().len() == pre.spec_frames().len(),
            post.spec_frames()[idx as int].order == k,
            forall|x: int| 0 <= x < pre.spec_frames().len() && x != idx
                ==> post.spec_frames()[x] == pre.spec_frames()[x],
        ensures
            post.wf(),
    {
        let ii = idx as int;
        pre.lemma_with_allocated(ii, k as nat);
        let w0 = pre.with_allocated(ii, k as nat);
        assert(w0.spec_allocated().dom().contains(ii));
        assert(w0.valid_block(ii, k as nat));
        lemma_pow2_pos(k as nat);
        assert forall|k1: int, j1: int|
            0 <= k1 < post.spec_lists().len() && 0 <= j1 < post.spec_lists()[k1].len()
            implies {
                let i = #[trigger] post.spec_lists()[k1][j1] as int;
                &&& post.valid_block(i, k1 as nat)
                &&& post.spec_frames()[i].state is Free
                &&& post.spec_frames()[i].order == k1
            } by {
            let i = post.spec_lists()[k1][j1] as int;
            assert(blocks_disjoint(i, k1 as nat, ii, k as nat));
            lemma_pow2_pos(k1 as nat);
            assert(i != ii);
        }
        assert forall|h1: int, j1: int|
            0 <= h1 < post.spec_caches().len() && 0 <= j1 < post.spec_caches()[h1].len()
            implies {
                let i = #[trigger] post.spec_caches()[h1][j1] as int;
                &&& post.valid_block(i, 0)
                &&& post.spec_frames()[i].state is Free
                &&& post.spec_frames()[i].order == 0
            } by {
            let i = post.spec_caches()[h1][j1] as int;
            assert(w0.spec_caches()[h1][j1] == post.spec_caches()[h1][j1]);
            assert(blocks_disjoint(i, 0, ii, k as nat));
            lemma2_to64();
            assert(i != ii);
        }
        assert forall|i: int| #[trigger] post.spec_allocated().dom().contains(i)
            implies {
                &&& post.valid_block(i, post.spec_allocated()[i])
                &&& post.spec_frames()[i].order == post.spec_allocated()[i]
            } by {
            assert(w0.spec_allocated().dom().contains(i));
            if i != ii {
                assert(blocks_disjoint(i, w0.spec_allocated()[i], ii, k as nat));
                lemma_pow2_pos(w0.spec_allocated()[i]);
                assert(i != ii);
            }
        }
        assert forall|i1: int, i2: int|
            #[trigger] post.spec_allocated().dom().contains(i1)
                && #[trigger] post.spec_allocated().dom().contains(i2) && i1 != i2
            implies blocks_disjoint(
            i1,
            post.spec_allocated()[i1],
            i2,
            post.spec_allocated()[i2],
        ) by {
            assert(w0.spec_allocated().dom().contains(i1));
            assert(w0.spec_allocated().dom().contains(i2));
        }
        assert forall|kq: int, j: int, i: int|
            0 <= kq < post.spec_lists().len() && 0 <= j < post.spec_lists()[kq].len()
                && #[trigger] post.spec_allocated().dom().contains(i)
            implies blocks_disjoint(
            #[trigger] post.spec_lists()[kq][j] as int,
            kq as nat,
            i,
            post.spec_allocated()[i],
        ) by {
            assert(w0.spec_allocated().dom().contains(i));
        }
        assert forall|hq: int, j: int, i: int|
            0 <= hq < post.spec_caches().len() && 0 <= j < post.spec_caches()[hq].len()
                && #[trigger] post.spec_allocated().dom().contains(i)
            implies blocks_disjoint(
            #[trigger] post.spec_caches()[hq][j] as int,
            0,
            i,
            post.spec_allocated()[i],
        ) by {
            assert(w0.spec_caches()[hq][j] == post.spec_caches()[hq][j]);
            assert(w0.spec_allocated().dom().contains(i));
        }
        assert forall|kq: int, j1: int, j2: int|
            0 <= kq < post.spec_lists().len() && 0 <= j1 < post.spec_lists()[kq].len()
                && 0 <= j2 < post.spec_lists()[kq].len()
            implies post.addr_of(#[trigger] post.spec_lists()[kq][j2] as int)
                != spec_buddy_addr(
                post.addr_of(#[trigger] post.spec_lists()[kq][j1] as int),
                kq as nat,
            ) by {
        }
    }

    /// Taking the front page out of a hart cache leaves a floating block
    /// that can be handed back or marked allocated.
    proof fn lemma_cache_pop_release(pre: Self, post: Self, hart: int, idx: usize)
        requires
            pre.wf(),
            0 <= hart < MAX_HARTS,
            pre.spec_caches()[hart].len() > 0,
            idx == pre.spec_caches()[hart][0],
            post.spec_map() == pre.spec_map(),
            post.spec_frames() == pre.spec_frames(),
            post.spec_lists() == pre.spec_lists(),
            post.spec_free_lists() == pre.spec_free_lists(),
            post.spec_orders() == pre.spec_orders(),
            post.spec_allocated() == pre.spec_allocated(),
            post.spec_caches().len() == pre.spec_caches().len(),
            post.spec_caches()[hart] == pre.spec_caches()[hart].drop_first(),
            forall|x: int| 0 <= x < pre.spec_caches().len() && x != hart
                ==> post.spec_caches()[x] == pre.spec_caches()[x],
        ensures
            post.block_insertable(idx as int, 0),
            post.spec_frames()[idx as int].state is Free,
            post.spec_frames()[idx as int].order == 0,
            post.valid_block(idx as int, 0),
    {
        let ii = idx as int;
        post.lemma_with_allocated(ii, 0);
        let w = post.with_allocated(ii, 0);
        assert(pre.valid_block(ii, 0));
        assert(!pre.spec_allocated().dom().contains(ii)) by {
            if pre.spec_allocated().dom().contains(ii) {
                assert(blocks_disjoint(ii, 0, ii, pre.spec_allocated()[ii]));
                lemma2_to64();
                lemma_pow2_pos(pre.spec_allocated()[ii]);
                assert(false);
            }
        }
        assert forall|h1: int, j1: int|
            0 <= h1 < w.spec_caches().len() && 0 <= j1 < w.spec_caches()[h1].len()
            implies {
                let i = #[trigger] w.spec_caches()[h1][j1] as int;
                &&& w.valid_block(i, 0)
                &&& w.spec_frames()[i].state is Free
                &&& w.spec_frames()[i].order == 0
            } by {
            let pj: int = if h1 == hart { j1 + 1 } else { j1 };
            assert(w.spec_caches()[h1][j1] == pre.spec_caches()[h1][pj]);
        }
        assert forall|h1: int, j1: int, h2: int, j2: int|
            0 <= h1 < w.spec_caches().len() && 0 <= j1 < w.spec_caches()[h1].len()
                && 0 <= h2 < w.spec_caches().len() && 0 <= j2 < w.spec_caches()[h2].len()
                && (h1 != h2 || j1 != j2)
            implies #[trigger] w.spec_caches()[h1][j1]
                != #[trigger] w.spec_caches()[h2][j2] by {
            let p1: int = if h1 == hart { j1 + 1 } else { j1 };
            let p2: int = if h2 == hart { j2 + 1 } else { j2 };
            assert(w.spec_caches()[h1][j1] == pre.spec_caches()[h1][p1]);
            assert(w.spec_caches()[h2][j2] == pre.spec_caches()[h2][p2]);
        }
        assert forall|kq: int, j: int, hq: int, j2: int|
            0 <= kq < w.spec_lists().len() && 0 <= j < w.spec_lists()[kq].len()
                && 0 <= hq < w.spec_caches().len() && 0 <= j2 < w.spec_caches()[hq].len()
            implies blocks_disjoint(
            #[trigger] w.spec_lists()[kq][j] as int,
            kq as nat,
            #[trigger] w.spec_caches()[hq][j2] as int,
            0,
        ) by {
            let pj: int = if hq == hart { j2 + 1 } else { j2 };
            assert(w.spec_caches()[hq][j2] == pre.spec_caches()[hq][pj]);
        }
        assert forall|hq: int, j: int, i: int|
            0 <= hq < w.spec_caches().len() && 0 <= j < w.spec_caches()[hq].len()
                && #[trigger] w.spec_allocated().dom().contains(i)
            implies blocks_disjoint(
            #[trigger] w.spec_caches()[hq][j] as int,
            0,
            i,
            w.spec_allocated()[i],
        ) by {
            let pj: int = if hq == hart { j + 1 } else { j };
            assert(w.spec_caches()[hq][j] == pre.spec_caches()[hq][pj]);
            if i == ii {
                lemma2_to64();
                assert(hq != hart || pj != 0);
                assert(pre.spec_caches()[hq][pj] != pre.spec_caches()[hart][0]);
            } else {
                assert(pre.spec_allocated().dom().contains(i));
            }
        }
        assert forall|kq: int, j: int, i: int|
            0 <= kq < w.spec_lists().len() && 0 <= j < w.spec_lists()[kq].len()
                && #[trigger] w.spec_allocated().dom().contains(i)
            implies blocks_disjoint(
            #[trigger] w.spec_lists()[kq][j] as int,
            kq as nat,
            i,
            w.spec_allocated()[i],
        ) by {
            if i == ii {
                assert(blocks_disjoint(
                    w.spec_lists()[kq][j] as int,
                    kq as nat,
                    pre.spec_caches()[hart][0] as int,
                    0,
                ));
            } else {
                assert(pre.spec_allocated().dom().contains(i));
            }
        }
        assert forall|i: int| #[trigger] w.spec_allocated().dom().contains(i)
            implies {
                &&& w.valid_block(i, w.spec_allocated()[i])
                &&& w.spec_frames()[i].order == w.spec_allocated()[i]
            } by {
            if i != ii {
                assert(pre.spec_allocated().dom().contains(i));
            }
        }
        assert forall|i1: int, i2: int|
            #[trigger] w.spec_allocated().dom().contains(i1)
                && #[trigger] w.spec_allocated().dom().contains(i2) && i1 != i2
            implies blocks_disjoint(
            i1,
            w.spec_allocated()[i1],
            i2,
            w.spec_allocated()[i2],
        ) by {
            if i1 == ii {
                assert(pre.spec_allocated().dom().contains(i2));
                assert(blocks_disjoint(
                    pre.spec_caches()[hart][0] as int,
                    0,
                    i2,
                    pre.spec_allocated()[i2],
                ));
            } else if i2 == ii {
                assert(pre.spec_allocated().dom().contains(i1));
                assert(blocks_disjoint(
                    pre.spec_caches()[hart][0] as int,
                    0,
                    i1,
                    pre.spec_allocated()[i1],
                ));
            } else {
                assert(pre.spec_allocated().dom().contains(i1));
                assert(pre.spec_allocated().dom().contains(i2));
            }
        }
    }

    /// Releasing a handed-out block (marking it free and dropping it from
    /// the allocation record) leaves a floating block ready to place.
    proof fn lemma_release_insertable(pre: Self, post: Self, idx: usize, k: u8)
        requires
            pre.wf(),
            pre.spec_allocated().dom().contains(idx as int),
            pre.spec_allocated()[idx as int] == k as nat,
            post.spec_map() == pre.spec_map(),
            post.spec_lists() == pre.spec_lists(),
            post.spec_free_lists() == pre.spec_free_lists(),
            post.spec_caches() == pre.spec_caches(),
            post.spec_orders() == pre.spec_orders(),
            post.spec_allocated() == pre.spec_allocated().remove(idx as int),
            post.spec_frames().len() == pre.spec_frames().len(),
            post.spec_frames()[idx as int].state is Free,
            post.spec_frames()[idx as int].order == k,
            forall|x: int| 0 <= x < pre.spec_frames().len() && x != idx
                ==> post.spec_frames()[x] == pre.spec_frames()[x],
        ensures
            post.block_insertable(idx as int, k as nat),
            post.wf(),
    {
        let ii = idx as int;
        post.lemma_with_allocated(ii, k as nat);
        let w = post.with_allocated(ii, k as nat);
        assert(w.spec_allocated() =~= pre.spec_allocated());
        lemma_pow2_pos(k as nat);
        assert forall|k1: int, j1: int|
            0 <= k1 < w.spec_lists().len() && 0 <= j1 < w.spec_lists()[k1].len()
            implies {
                let i = #[trigger] w.spec_lists()[k1][j1] as int;
                &&& w.valid_block(i, k1 as nat)
                &&& w.spec_frames()[i].state is Free
                &&& w.spec_frames()[i].order == k1
            } by {
            let i = w.spec_lists()[k1][j1] as int;
            assert(blocks_disjoint(i, k1 as nat, ii, k as nat));
            lemma_pow2_pos(k1 as nat);
            assert(i != ii);
        }
        assert forall|h1: int, j1: int|
            0 <= h1 < w.spec_caches().len() && 0 <= j1 < w.spec_caches()[h1].len()
            implies {
                let i = #[trigger] w.spec_caches()[h1][j1] as int;
                &&& w.valid_block(i, 0)
                &&& w.spec_frames()[i].state is Free
                &&& w.spec_frames()[i].order == 0
            } by {
            let i = w.spec_caches()[h1][j1] as int;
            assert(pre.spec_caches()[h1][j1] == w.spec_caches()[h1][j1]);
            assert(blocks_disjoint(i, 0, ii, k as nat));
            lemma2_to64();
            assert(i != ii);
        }
        assert forall|i: int| #[trigger] w.spec_allocated().dom().contains(i)
            implies {
                &&& w.valid_block(i, w.spec_allocated()[i])
                &&& w.spec_frames()[i].order == w.spec_allocated()[i]
            } by {
            assert(pre.spec_allocated().dom().contains(i));
            if i != ii {
                assert(blocks_disjoint(i, pre.spec_allocated()[i], ii, k as nat));
                lemma_pow2_pos(pre.spec_allocated()[i]);
                assert(i != ii);
            }
        }
        assert(!post.spec_allocated().dom().contains(ii));
        assert(w.wf());
    }

    /// The frame array's length is machine-representable.
    pub proof fn lemma_frames_bound(&self)
        ensures
            self.spec_frames().len() <= usize::MAX,
    {
        vstd::std_specs::vec::axiom_spec_len(&self.frames);
    }

    /// A recorded block's head index lies inside the frame array.
    proof fn lemma_allocated_in_range(s: Self, x: int)
        requires
            s.wf(),
            s.spec_allocated().dom().contains(x),
        ensures
            0 <= x < s.spec_frames().len(),
    {
        assert(s.valid_block(x, s.spec_allocated()[x]));
        lemma_pow2_pos(s.spec_allocated()[x]);
    }

    /// Marks a floating free block as handed out and records it.
    fn finalize_block(&mut self, idx: usize, k: u8)
        requires
            old(self).block_insertable(idx as int, k as nat),
        ensures
            final(self).wf(),
            final(self).spec_map() == old(self).spec_map(),
            final(self).spec_orders() == old(self).spec_orders(),
            final(self).spec_lists() == old(self).spec_lists(),
            final(self).spec_caches() == old(self).spec_caches(),
            final(self).spec_allocated() == old(self).spec_allocated().insert(
                idx as int,
                k as nat,
            ),
            final(self).spec_frames().len() == old(self).spec_frames().len(),
            final(self).spec_frames()[idx as int].state is Allocated,
            final(self).spec_frames()[idx as int].order == k,
            final(self).valid_block(idx as int, k as nat),
            forall|x: int| 0 <= x < old(self).spec_frames().len() && x != idx
                ==> final(self).spec_frames()[x] == old(self).spec_frames()[x],
            final(self).free_list_bytes() == old(self).free_list_bytes(),
            final(self).free_cache_bytes() == old(self).free_cache_bytes(),
            forall|h: int| 0 <= h < MAX_HARTS
                ==> final(self).spec_cache_target(h) == old(self).spec_cache_target(h),
    {
        proof {
            old(self).lemma_with_allocated(idx as int, k as nat);
            assert(old(self).with_allocated(idx as int, k as nat).spec_allocated()
                .dom().contains(idx as int));
            assert(old(self).with_allocated(idx as int, k as nat).valid_block(
                idx as int,
                k as nat,
            ));
            lemma_pow2_pos(k as nat);
        }
        {
            let fr = &mut self.frames[idx];
            fr.set_state(State::Allocated);
        }
        self.allocated = Ghost(self.allocated@.insert(idx as int, k as nat));
        proof {
            Self::lemma_finalize_wf(*old(self), *self, idx, k);
            assert(self.spec_caches() =~= old(self).spec_caches());
        }
    }

    /// Takes a free page from the executing hart's cache, refilling the
    /// cache from the global pool on a miss, and marks it handed out.
    #[verifier::rlimit(100)]
    #[verifier::spinoff_prover]
    fn get_from_cache(&mut self, hart: usize) -> (r: Option<usize>)
        requires
            old(self).wf(),
            hart < MAX_HARTS,
        ensures
            final(self).wf(),
            final(self).spec_map() == old(self).spec_map(),
            final(self).spec_orders() == old(self).spec_orders(),
            final(self).spec_frames().len() == old(self).spec_frames().len(),
            forall|x: int| old(self).spec_allocated().dom().contains(x)
                ==> final(self).spec_frames()[x] == old(self).spec_frames()[x],
            r is None ==> Self::same_state(*final(self), *old(self))
                && old(self).spec_caches()[hart as int].len() == 0
                && (forall|j: int| 0 <= j < old(self).spec_lists().len()
                    ==> old(self).spec_lists()[j].len() == 0),
            forall|h: int| 0 <= h < MAX_HARTS
                ==> final(self).spec_cache_target(h) == old(self).spec_cache_target(h),
            r is Some ==> ({
                let i = r->0 as int;
                &&& !old(self).spec_allocated().dom().contains(i)
                &&& final(self).spec_allocated() == old(self).spec_allocated().insert(i, 0)
                &&& final(self).spec_frames()[i].state is Allocated
                &&& final(self).spec_frames()[i].order == 0
                &&& final(self).valid_block(i, 0)
                &&& final(self).free_list_bytes() + final(self).free_cache_bytes()
                    == old(self).free_list_bytes() + old(self).free_cache_bytes() - BASE_SIZE
                &&& (old(self).spec_caches()[hart as int].len() > 0
                    || spec_first_free(old(self).spec_lists(), 0) < old(self).spec_lists().len())
                &&& (old(self).spec_caches()[hart as int].len() > 0 ==> {
                    &&& r->0 == old(self).spec_caches()[hart as int][0]
                    &&& final(self).spec_lists() == old(self).spec_lists()
                    &&& final(self).spec_caches() == old(self).spec_caches().update(
                        hart as int,
                        old(self).spec_caches()[hart as int].drop_first(),
                    )
                })
            }),
            ({
                // With an empty cache and a single-block refill, one split
                // serves the request and the cache ends as it began.
                let ll = old(self).spec_lists();
                let f = spec_first_free(ll, 0);
                (old(self).spec_caches()[hart as int].len() == 0
                    && <Quartering as CacheStrategy>::spec_refill_amount(
                    old(self).spec_cache_target(hart as int) as int,
                    0,
                ) == 1 && f < ll.len()) ==> {
                    &&& r == Some(ll[f][0])
                    &&& final(self).spec_lists() == split_lists(ll, ll[f][0] as int, f, 0)
                    &&& final(self).spec_caches() == old(self).spec_caches()
                }
            }),
    {
        let ghost cc0 = self.spec_caches();
        let popped = {
            let c = &mut self.hart_caches[hart];
            c.pop()
        };
        match popped {
            Some(i) => {
                proof {
                    assert(self.spec_caches() =~= cc0.update(
                        hart as int,
                        cc0[hart as int].drop_first(),
                    ));
                    Self::lemma_cache_pop_release(*old(self), *self, hart as int, i);
                    lemma_cache_bytes_update(
                        cc0,
                        self.spec_caches(),
                        hart as int,
                        -1,
                        cc0.len() as int,
                    );
                    assert forall|h: int| 0 <= h < MAX_HARTS
                        implies self.spec_cache_target(h)
                        == old(self).spec_cache_target(h) by {
                        if h != hart as int {
                            assert(self.hart_caches@[h] == old(self).hart_caches@[h]);
                        }
                    }
                }
                self.finalize_block(i, 0);
                proof {
                    assert forall|x: int| old(self).spec_allocated().dom().contains(x)
                        implies self.spec_frames()[x] == old(self).spec_frames()[x] by {
                        lemma2_to64();
                        assert(blocks_disjoint(
                            old(self).spec_caches()[hart as int][0] as int,
                            0,
                            x,
                            old(self).spec_allocated()[x],
                        ));
                        lemma_pow2_pos(old(self).spec_allocated()[x]);
                    }
                }
                return Some(i);
            },
            None => {
                proof {
                    assert(self.spec_caches() =~= cc0);
                    assert forall|h: int| 0 <= h < MAX_HARTS
                        implies self.spec_cache_target(h)
                        == old(self).spec_cache_target(h) by {
                        if h != hart as int {
                            assert(self.hart_caches@[h] == old(self).hart_caches@[h]);
                        }
                    }
                }
            },
        }
        let amount = {
            let c = &self.hart_caches[hart];
            c.refill_amount()
        };
        let mut n: usize = 0;
        let mut failed = false;
        let ghost mut gh: usize = 0;
        while n < amount && !failed
            invariant
                self.wf(),
                hart < MAX_HARTS,
                amount == <Quartering as CacheStrategy>::spec_refill_amount(
                    old(self).spec_cache_target(hart as int) as int,
                    0,
                ),
                self.spec_map() == old(self).spec_map(),
                self.spec_orders() == old(self).spec_orders(),
                self.spec_frames().len() == old(self).spec_frames().len(),
                self.spec_allocated() == old(self).spec_allocated(),
                forall|x: int| old(self).spec_allocated().dom().contains(x)
                    ==> self.spec_frames()[x] == old(self).spec_frames()[x],
                self.free_list_bytes() + self.free_cache_bytes()
                    == old(self).free_list_bytes() + old(self).free_cache_bytes(),
                old(self).spec_caches()[hart as int].len() == 0,
                self.spec_caches()[hart as int].len() == n,
                n <= amount,
                forall|h: int| 0 <= h < MAX_HARTS
                    ==> self.spec_cache_target(h) == old(self).spec_cache_target(h),
                n == 0 ==> Self::same_state(*self, *old(self)),
                n > 0 ==> spec_first_free(old(self).spec_lists(), 0)
                    < old(self).spec_lists().len(),
                amount == 1 && n == 1 ==> ({
                    let ll = old(self).spec_lists();
                    let f = spec_first_free(ll, 0);
                    &&& gh == ll[f][0]
                    &&& self.spec_lists() == split_lists(ll, gh as int, f, 0)
                    &&& self.spec_caches() == old(self).spec_caches().update(
                        hart as int,
                        seq![gh],
                    )
                }),
                failed ==> forall|j: int| 0 <= j < self.spec_lists().len()
                    ==> self.spec_lists()[j].len() == 0,
            decreases amount - n + (if failed { 0int } else { 1int }),
        {
            match self.prepare_block(0) {
                Some(b) => {
                    proof {
                        if n == 0 {
                            lemma_first_free_correct(old(self).spec_lists(), 0);
                        }
                    }
                    let ghost mid = *self;
                    let ghost cc1 = self.spec_caches();
                    {
                        let c = &mut self.hart_caches[hart];
                        c.push(b);
                    }
                    proof {
                        assert(self.spec_caches() =~= cc1.update(
                            hart as int,
                            seq![b].add(cc1[hart as int]),
                        ));
                        Self::lemma_cache_push_wf(mid, *self, hart as int, b);
                        lemma2_to64();
                        lemma_cache_bytes_update(
                            cc1,
                            self.spec_caches(),
                            hart as int,
                            1,
                            cc1.len() as int,
                        );
                        assert forall|h: int| 0 <= h < MAX_HARTS
                            implies self.spec_cache_target(h)
                            == mid.spec_cache_target(h) by {
                            if h != hart as int {
                                assert(self.hart_caches@[h] == mid.hart_caches@[h]);
                            }
                        }
                        gh = b;
                        if n == 0 {
                            assert(seq![b].add(cc1[hart as int]) =~= seq![b]);
                            assert(self.spec_caches() =~= old(self).spec_caches().update(
                                hart as int,
                                seq![b],
                            ));
                        }
                    }
                    n = n + 1;
                },
                None => {
                    proof {
                        lemma_first_free_correct(self.spec_lists(), 0);
                    }
                    failed = true;
                },
            }
        }
        let ghost pre2 = *self;
        let ghost cc2 = self.spec_caches();
        let popped2 = {
            let c = &mut self.hart_caches[hart];
            c.pop()
        };
        match popped2 {
            Some(i) => {
                proof {
                    assert(self.spec_caches() =~= cc2.update(
                        hart as int,
                        cc2[hart as int].drop_first(),
                    ));
                    Self::lemma_cache_pop_release(pre2, *self, hart as int, i);
                    lemma_cache_bytes_update(
                        cc2,
                        self.spec_caches(),
                        hart as int,
                        -1,
                        cc2.len() as int,
                    );
                    assert forall|h: int| 0 <= h < MAX_HARTS
                        implies self.spec_cache_target(h) == pre2.spec_cache_target(h) by {
                        if h != hart as int {
                            assert(self.hart_caches@[h] == pre2.hart_caches@[h]);
                        }
                    }
                }
                self.finalize_block(i, 0);
                proof {
                    assert forall|x: int| old(self).spec_allocated().dom().contains(x)
                        implies self.spec_frames()[x] == old(self).spec_frames()[x] by {
                        lemma2_to64();
                        assert(pre2.spec_allocated().dom().contains(x));
                        assert(blocks_disjoint(
                            pre2.spec_caches()[hart as int][0] as int,
                            0,
                            x,
                            pre2.spec_allocated()[x],
                        ));
                        lemma_pow2_pos(pre2.spec_allocated()[x]);
                        assert(x != i);
                        assert(pre2.spec_frames()[x] == old(self).spec_frames()[x]);
                    }
                    if amount == 1 && n == 1 {
                        assert(i == gh);
                        assert(cc2[hart as int] =~= seq![gh]);
                        assert(cc2[hart as int].drop_first()
                            =~= old(self).spec_caches()[hart as int]);
                        assert(self.spec_caches() =~= old(self).spec_caches());
                    }
                }
                Some(i)
            },
            None => {
                proof {
                    assert(self.spec_caches() =~= cc2);
                    assert forall|h: int| 0 <= h < MAX_HARTS
                        implies self.spec_cache_target(h) == pre2.spec_cache_target(h) by {
                        if h != hart as int {
                            assert(self.hart_caches@[h] == pre2.hart_caches@[h]);
                        }
                    }
                    // An empty cache here means no refill succeeded, so the
                    // lists held nothing.
                    if spec_first_free(old(self).spec_lists(), 0)
                        < old(self).spec_lists().len() && amount == 1 {
                        assert(n == 0);
                        lemma_first_free_correct(old(self).spec_lists(), 0);
                        let f = spec_first_free(old(self).spec_lists(), 0);
                        assert(old(self).spec_lists()[f].len() > 0);
                        assert(self.spec_lists()[f].len() == 0);
                        assert(false);
                    }
                }
                None
            },
        }
    }

    /// Allocates a block for a request of `size` bytes with the given
    /// alignment, on the executing hart. Alignments above the base page
    /// size are unsupported; zero-sized requests get a dangling sentinel;
    /// requests at or above the pool size, and requests the pool cannot
    /// satisfy, yield `None`.
    ///
    /// On success exactly `2^k * BASE_SIZE` bytes leave the free pool
    /// (lists and caches together), for `k` the order covering the
    /// request; `dealloc` puts exactly as much back, so balanced
    /// allocate/release traffic leaves the pool's byte count unchanged,
    /// wherever the pages are parked.
    pub fn allocate(&mut self, hart: usize, size: usize, align: usize) -> (r: Option<
        PhysicalAddress,
    >)
        requires
            old(self).wf(),
            hart < MAX_HARTS,
        ensures
            final(self).wf(),
            final(self).spec_map() == old(self).spec_map(),
            final(self).spec_orders() == old(self).spec_orders(),
            final(self).spec_frames().len() == old(self).spec_frames().len(),
            forall|x: int| old(self).spec_allocated().dom().contains(x)
                ==> final(self).spec_frames()[x] == old(self).spec_frames()[x],
            align > BASE_SIZE ==> r is None && Self::same_state(*final(self), *old(self)),
            align <= BASE_SIZE && size == 0 ==> r == Some(PhysicalAddress(1))
                && Self::same_state(*final(self), *old(self)),
            align <= BASE_SIZE && size > 0 && size >= old(self).spec_map().free_memory.size
                ==> r is None && Self::same_state(*final(self), *old(self)),
            forall|h: int| 0 <= h < MAX_HARTS
                ==> final(self).spec_cache_target(h) == old(self).spec_cache_target(h),
            align <= BASE_SIZE && 0 < size < old(self).spec_map().free_memory.size ==> ({
                let k = Self::spec_order_from_size(size as int);
                &&& (r is None ==> Self::same_state(*final(self), *old(self)))
                &&& (r is None <==> !((k == 0 && old(self).spec_caches()[
                    hart as int].len() > 0) || spec_first_free(old(self).spec_lists(), k as int)
                    < old(self).spec_lists().len()))
                &&& (r is Some ==> ({
                    let i = ((r->0).0 - old(self).spec_map().ram.start.0) / (BASE_SIZE as int);
                    &&& (r->0).0 == old(self).addr_of(i)
                    &&& final(self).spec_allocated() == old(self).spec_allocated().insert(i, k)
                    &&& final(self).spec_frames()[i].state is Allocated
                    &&& final(self).spec_frames()[i].order == k
                    &&& final(self).valid_block(i, k)
                    &&& final(self).free_list_bytes() + final(self).free_cache_bytes()
                        == old(self).free_list_bytes() + old(self).free_cache_bytes()
                        - pow2(k) * BASE_SIZE
                }))
                &&& (k > 0 && r is Some ==> ({
                    // A multi-page request takes the head of the first
                    // non-empty order and leaves the split-off buddies.
                    let ll = old(self).spec_lists();
                    let f = spec_first_free(ll, k as int);
                    let hh = ll[f][0];
                    &&& (r->0).0 == old(self).addr_of(hh as int)
                    &&& final(self).spec_lists() == split_lists(ll, hh as int, f, k as int)
                    &&& final(self).spec_caches() == old(self).spec_caches()
                }))
                &&& (k == 0 && old(self).spec_caches()[hart as int].len() > 0 ==> ({
                    // A cache hit pops the hart's own cache and leaves the
                    // global lists and every other cache alone.
                    let front = old(self).spec_caches()[hart as int][0];
                    &&& r is Some
                    &&& (r->0).0 == old(self).addr_of(front as int)
                    &&& final(self).spec_lists() == old(self).spec_lists()
                    &&& final(self).spec_caches() == old(self).spec_caches().update(
                        hart as int,
                        old(self).spec_caches()[hart as int].drop_first(),
                    )
                }))
                &&& (k == 0 && old(self).spec_caches()[hart as int].len() == 0
                    && <Quartering as CacheStrategy>::spec_refill_amount(
                    old(self).spec_cache_target(hart as int) as int,
                    0,
                ) == 1 && spec_first_free(old(self).spec_lists(), 0)
                    < old(self).spec_lists().len() ==> ({
                    // A cache miss with a single-block refill performs one
                    // split and leaves the cache as it began.
                    let ll = old(self).spec_lists();
                    let f = spec_first_free(ll, 0);
                    let hh = ll[f][0];
                    &&& r is Some
                    &&& (r->0).0 == old(self).addr_of(hh as int)
                    &&& final(self).spec_lists() == split_lists(ll, hh as int, f, 0)
                    &&& final(self).spec_caches() == old(self).spec_caches()
                }))
            }),
    {
        let ghost ram0 = self.spec_map().ram.start.0 as int;
        if align > BASE_SIZE {
            return None;
        }
        if size == 0 {
            return Some(PhysicalAddress::new(1));
        }
        if size >= self.map.free_memory.size() {
            return None;
        }
        let order = self.order_from_size(size);
        if order == 0 {
            match self.get_from_cache(hart) {
                Some(i) => {
                    let a = self.map.frame_ref_to_address(i);
                    proof {
                        lemma_index_addr_order(0, i as int);
                        lemma_fundamental_div_mod((i as int) * (BASE_SIZE as int),
                            BASE_SIZE as int);
                        assert((a.0 - ram0) / (BASE_SIZE as int) == i as int)
                            by (nonlinear_arith)
                            requires a.0 - ram0 == (i as int) * (BASE_SIZE as int)
                                && (BASE_SIZE as int) > 0 && i as int >= 0,
                        ;
                        lemma2_to64();
                        lemma_first_free_correct(old(self).spec_lists(), 0);
                    }
                    return Some(a);
                },
                None => {
                    proof {
                        lemma_first_free_correct(old(self).spec_lists(), 0);
                    }
                    return None;
                },
            }
        }
        match self.prepare_block(order) {
            Some(h) => {
                proof {
                    lemma_first_free_correct(old(self).spec_lists(), order as int);
                }
                let ghost after_prep = *self;
                self.finalize_block(h, order);
                let a = self.map.frame_ref_to_address(h);
                proof {
                    lemma_index_addr_order(0, h as int);
                    lemma_fundamental_div_mod((h as int) * (BASE_SIZE as int), BASE_SIZE as int);
                    assert((a.0 - ram0) / (BASE_SIZE as int) == h as int)
                        by (nonlinear_arith)
                        requires a.0 - ram0 == (h as int) * (BASE_SIZE as int)
                            && (BASE_SIZE as int) > 0 && h as int >= 0,
                    ;
                    assert forall|x: int| old(self).spec_allocated().dom().contains(x)
                        implies self.spec_frames()[x] == old(self).spec_frames()[x] by {
                        assert(x != h as int) by {
                            if x == h as int {
                                // The returned head was a listed free block,
                                // disjoint from every handed-out block.
                                let f = spec_first_free(old(self).spec_lists(), order as int);
                                assert(old(self).spec_lists()[f][0] == h);
                                assert(blocks_disjoint(
                                    h as int,
                                    f as nat,
                                    x,
                                    old(self).spec_allocated()[x],
                                ));
                                lemma_pow2_pos(f as nat);
                                lemma_pow2_pos(old(self).spec_allocated()[x]);
                            }
                        }
                        Self::lemma_allocated_in_range(*old(self), x);
                        assert(after_prep.spec_frames()[x] == old(self).spec_frames()[x]);
                        assert(self.spec_frames()[x] == after_prep.spec_frames()[x]);
                    }
                }
                Some(a)
            },
            None => {
                proof {
                    lemma_first_free_correct(old(self).spec_lists(), order as int);
                }
                None
            },
        }
    }

    /// Sources one base page for the slab allocator from the executing
    /// hart's cache.
    pub fn alloc_slab(&mut self, hart: usize) -> (r: Option<usize>)
        requires
            old(self).wf(),
            hart < MAX_HARTS,
        ensures
            final(self).wf(),
            final(self).spec_map() == old(self).spec_map(),
            final(self).spec_orders() == old(self).spec_orders(),
            final(self).spec_frames().len() == old(self).spec_frames().len(),
            forall|x: int| old(self).spec_allocated().dom().contains(x)
                ==> final(self).spec_frames()[x] == old(self).spec_frames()[x],
            forall|h: int| 0 <= h < MAX_HARTS
                ==> final(self).spec_cache_target(h) == old(self).spec_cache_target(h),
            r is None ==> Self::same_state(*final(self), *old(self)),
            r is None <==> (old(self).spec_caches()[hart as int].len() == 0
                && spec_first_free(old(self).spec_lists(), 0) >= old(self).spec_lists().len()),
            r is Some ==> ({
                let i = r->0 as int;
                &&& !old(self).spec_allocated().dom().contains(i)
                &&& final(self).spec_allocated() == old(self).spec_allocated().insert(i, 0)
                &&& final(self).spec_frames()[i].state is Allocated
                &&& final(self).spec_frames()[i].order == 0
                &&& final(self).valid_block(i, 0)
                &&& final(self).free_list_bytes() + final(self).free_cache_bytes()
                    == old(self).free_list_bytes() + old(self).free_cache_bytes() - BASE_SIZE
                &&& (old(self).spec_caches()[hart as int].len() > 0
                    ==> r->0 == old(self).spec_caches()[hart as int][0])
            }),
    {
        let r = self.get_from_cache(hart);
        proof {
            lemma2_to64();
            lemma_first_free_correct(old(self).spec_lists(), 0);
        }
        r
    }

    /// Releases the block at `addr` that was previously handed out. Pages
    /// go to the executing hart's cache while it has room; a full cache is
    /// drained to the global lists first, and with a cache target of zero
    /// the page bypasses the cache entirely. Larger blocks always coalesce
    /// back into the global lists.
    pub fn dealloc(&mut self, hart: usize, addr: PhysicalAddress, size: usize, align: usize)
        requires
            old(self).wf(),
            hart < MAX_HARTS,
            size > 0 ==> ({
                let i = (addr.0 - old(self).spec_map().ram.start.0) / (BASE_SIZE as int);
                &&& old(self).spec_allocated().dom().contains(i)
                &&& addr.0 == old(self).addr_of(i)
            }),
        ensures
            final(self).wf(),
            final(self).spec_map() == old(self).spec_map(),
            final(self).spec_orders() == old(self).spec_orders(),
            final(self).spec_frames().len() == old(self).spec_frames().len(),
            size == 0 ==> Self::same_state(*final(self), *old(self)),
            forall|h: int| 0 <= h < MAX_HARTS
                ==> final(self).spec_cache_target(h) == old(self).spec_cache_target(h),
            size > 0 ==> ({
                let i = (addr.0 - old(self).spec_map().ram.start.0) / (BASE_SIZE as int);
                let k = old(self).spec_allocated()[i];
                &&& final(self).spec_allocated() == old(self).spec_allocated().remove(i)
                &&& final(self).free_list_bytes() + final(self).free_cache_bytes()
                    == old(self).free_list_bytes() + old(self).free_cache_bytes()
                    + pow2(k) * BASE_SIZE
                &&& forall|x: int| final(self).spec_allocated().dom().contains(x)
                    ==> final(self).spec_frames()[x] == old(self).spec_frames()[x]
            }),
            size > 0 ==> ({
                // Where the page goes is pinned: blocks above order 0
                // coalesce into the global lists; a page meets its hart's
                // cache while there is room, and bypasses a cache that is
                // full with nothing to drain (in particular one whose
                // target is zero, i.e. disabled).
                let i = (addr.0 - old(self).spec_map().ram.start.0) / (BASE_SIZE as int);
                let k = old(self).spec_allocated()[i];
                let marked = old(self).spec_frames().update(
                    i,
                    Frame { state: State::Free, ..old(self).spec_frames()[i] },
                );
                let merged = spec_coalesce(
                    old(self).spec_map(),
                    old(self).spec_orders(),
                    old(self).spec_lists(),
                    marked,
                    i,
                    k,
                );
                &&& (k > 0 ==> final(self).spec_lists() == merged.0
                    && final(self).spec_frames() == merged.1
                    && final(self).spec_caches() == old(self).spec_caches())
                &&& (k == 0 && old(self).spec_caches()[hart as int].len()
                    < old(self).spec_cache_target(hart as int) ==> {
                    &&& final(self).spec_caches() == old(self).spec_caches().update(
                        hart as int,
                        seq![(i as usize)].add(old(self).spec_caches()[hart as int]),
                    )
                    &&& final(self).spec_lists() == old(self).spec_lists()
                    &&& final(self).spec_frames() == marked
                })
                &&& (k == 0 && old(self).spec_caches()[hart as int].len()
                    >= old(self).spec_cache_target(hart as int)
                    && <Quartering as CacheStrategy>::spec_drain_amount(
                    old(self).spec_cache_target(hart as int) as int,
                    old(self).spec_caches()[hart as int].len() as int,
                ) == 0 ==> {
                    &&& final(self).spec_lists() == merged.0
                    &&& final(self).spec_frames() == merged.1
                    &&& final(self).spec_caches() == old(self).spec_caches()
                })
            }),
    {
        if size == 0 {
            return;
        }
        let ghost ram0 = self.spec_map().ram.start.0 as int;
        let ghost bs = BASE_SIZE as int;
        proof {
            let i0 = (addr.0 - ram0) / bs;
            let kk0 = old(self).spec_allocated()[i0];
            assert(old(self).valid_block(i0, kk0));
            lemma_pow2_pos(kk0);
            let p0 = pow2(kk0) as int;
            assert(self.spec_map().ram.spec_contains(addr.0 as int)) by {
                assert(old(self).addr_of(i0) + p0 * bs
                    <= self.spec_map().free_memory.spec_end());
                assert(p0 * bs >= bs) by (nonlinear_arith)
                    requires p0 >= 1 && bs > 0,
                ;
            }
        }
        let idx = self.map.frame_idx_from_address(addr);
        let ghost ii = idx as int;
        let ghost k_g = old(self).spec_allocated()[ii];
        proof {
            lemma_fundamental_div_mod(addr.0 - ram0, bs);
            assert(ii == (addr.0 - ram0) / bs) by (nonlinear_arith)
                requires addr.0 - ram0 == ii * bs && bs > 0 && ii >= 0,
            ;
            assert(ii + pow2(k_g) <= self.spec_frames().len());
        }
        let k = self.frames[idx].order();
        proof {
            assert(k as nat == k_g);
        }
        {
            let fr = &mut self.frames[idx];
            fr.set_state(State::Free);
        }
        proof {
            Self::lemma_mark_free_wf(*old(self), *self, idx);
            assert(self.spec_frames() =~= old(self).spec_frames().update(
                ii,
                Frame { state: State::Free, ..old(self).spec_frames()[ii] },
            ));
            assert forall|h: int| 0 <= h < MAX_HARTS
                implies self.spec_cache_target(h) == old(self).spec_cache_target(h) by {
                assert(self.hart_caches@[h] == old(self).hart_caches@[h]);
            }
        }
        let ghost marked = *self;
        if k > 0 {
            self.allocated = Ghost(self.allocated@.remove(ii));
            proof {
                assert(self.spec_caches() =~= marked.spec_caches());
                Self::lemma_release_insertable(marked, *self, idx, k);
            }
            let ghost before_co = *self;
            self.coalesce_into(idx, k);
            proof {
                assert forall|x: int| self.spec_allocated().dom().contains(x)
                    implies self.spec_frames()[x] == old(self).spec_frames()[x] by {
                    assert(x != ii);
                    Self::lemma_allocated_in_range(*old(self), x);
                    assert(self.spec_frames()[x] == before_co.spec_frames()[x]);
                    assert(before_co.spec_frames()[x] == old(self).spec_frames()[x]);
                }
                assert(self.free_cache_bytes() == marked.free_cache_bytes());
                assert(self.spec_caches() == old(self).spec_caches());
                assert(before_co.spec_lists() == old(self).spec_lists());
            }
            return;
        }
        let full = {
            let c = &self.hart_caches[hart];
            c.is_full()
        };
        if !full {
            self.allocated = Ghost(self.allocated@.remove(ii));
            proof {
                assert(self.spec_caches() =~= marked.spec_caches());
                Self::lemma_release_insertable(marked, *self, idx, k);
            }
            let ghost mid = *self;
            let ghost cc1 = self.spec_caches();
            {
                let c = &mut self.hart_caches[hart];
                c.push(idx);
            }
            proof {
                assert(self.spec_caches() =~= cc1.update(
                    hart as int,
                    seq![idx].add(cc1[hart as int]),
                ));
                Self::lemma_cache_push_wf(mid, *self, hart as int, idx);
                lemma2_to64();
                lemma_cache_bytes_update(
                    cc1,
                    self.spec_caches(),
                    hart as int,
                    1,
                    cc1.len() as int,
                );
                assert forall|x: int| self.spec_allocated().dom().contains(x)
                    implies self.spec_frames()[x] == old(self).spec_frames()[x] by {
                    assert(x != ii);
                    Self::lemma_allocated_in_range(*old(self), x);
                }
                assert(self.spec_lists() == old(self).spec_lists());
                assert(self.spec_caches() =~= old(self).spec_caches().update(
                    hart as int,
                    seq![(ii as usize)].add(old(self).spec_caches()[hart as int]),
                ));
                assert forall|h: int| 0 <= h < MAX_HARTS
                    implies self.spec_cache_target(h) == old(self).spec_cache_target(h) by {
                    if h != hart as int {
                        assert(self.hart_caches@[h] == mid.hart_caches@[h]);
                    }
                }
            }
            return;
        }
        // The cache is full: spill the policy's share to the global lists,
        // then place this page wherever there is room. With a cache target
        // of zero this hands the page straight to the global lists.
        let amount = {
            let c = &self.hart_caches[hart];
            c.drain_amount()
        };
        let mut d: usize = 0;
        while d < amount
            invariant
                self.wf(),
                hart < MAX_HARTS,
                d <= amount,
                amount <= marked.spec_caches()[hart as int].len(),
                self.spec_map() == marked.spec_map(),
                self.spec_orders() == marked.spec_orders(),
                self.spec_frames().len() == marked.spec_frames().len(),
                self.spec_allocated() == marked.spec_allocated(),
                self.spec_caches().len() == marked.spec_caches().len(),
                self.spec_caches()[hart as int].len()
                    == marked.spec_caches()[hart as int].len() - d,
                self.free_list_bytes() + self.free_cache_bytes()
                    == marked.free_list_bytes() + marked.free_cache_bytes(),
                forall|x: int| self.spec_allocated().dom().contains(x)
                    ==> self.spec_frames()[x] == marked.spec_frames()[x],
                forall|h: int| 0 <= h < MAX_HARTS
                    ==> self.spec_cache_target(h) == marked.spec_cache_target(h),
                d == 0 ==> self.spec_lists() == marked.spec_lists()
                    && self.spec_caches() == marked.spec_caches()
                    && self.spec_frames() == marked.spec_frames(),
            decreases amount - d,
        {
            let ghost pre2 = *self;
            let ghost cc2 = self.spec_caches();
            let popped = {
                let c = &mut self.hart_caches[hart];
                c.pop()
            };
            match popped {
                Some(b) => {
                    proof {
                        assert(self.spec_caches() =~= cc2.update(
                            hart as int,
                            cc2[hart as int].drop_first(),
                        ));
                        Self::lemma_cache_pop_release(pre2, *self, hart as int, b);
                        lemma_cache_bytes_update(
                            cc2,
                            self.spec_caches(),
                            hart as int,
                            -1,
                            cc2.len() as int,
                        );
                        lemma2_to64();
                        assert forall|h: int| 0 <= h < MAX_HARTS
                            implies self.spec_cache_target(h)
                            == pre2.spec_cache_target(h) by {
                            if h != hart as int {
                                assert(self.hart_caches@[h] == pre2.hart_caches@[h]);
                            }
                        }
                    }
                    self.coalesce_into(b, 0);
                },
                None => {
                    proof {
                        assert(false);
                    }
                },
            }
            d = d + 1;
        }
        self.allocated = Ghost(self.allocated@.remove(ii));
        proof {
            let drained = Self { allocated: Ghost(marked.spec_allocated()), ..*self };
            assert(self.spec_caches() =~= drained.spec_caches());
            Self::lemma_release_insertable(drained, *self, idx, k);
        }
        let full2 = {
            let c = &self.hart_caches[hart];
            c.is_full()
        };
        if !full2 {
            let ghost mid = *self;
            let ghost cc1 = self.spec_caches();
            {
                let c = &mut self.hart_caches[hart];
                c.push(idx);
            }
            proof {
                assert(self.spec_caches() =~= cc1.update(
                    hart as int,
                    seq![idx].add(cc1[hart as int]),
                ));
                Self::lemma_cache_push_wf(mid, *self, hart as int, idx);
                lemma2_to64();
                lemma_cache_bytes_update(
                    cc1,
                    self.spec_caches(),
                    hart as int,
                    1,
                    cc1.len() as int,
                );
                assert forall|x: int| self.spec_allocated().dom().contains(x)
                    implies self.spec_frames()[x] == old(self).spec_frames()[x] by {
                    assert(x != ii);
                    Self::lemma_allocated_in_range(*old(self), x);
                    assert(self.spec_frames()[x] == marked.spec_frames()[x]);
                }
                assert forall|h: int| 0 <= h < MAX_HARTS
                    implies self.spec_cache_target(h) == old(self).spec_cache_target(h) by {
                    if h != hart as int {
                        assert(self.hart_caches@[h] == mid.hart_caches@[h]);
                    }
                }
                // A cache that was full with nothing to drain is still
                // full, so this path is not taken then.
                if amount == 0 {
                    assert(mid.spec_caches()[hart as int].len()
                        == old(self).spec_caches()[hart as int].len());
                }
            }
        } else {
            let ghost before_co = *self;
            self.coalesce_into(idx, 0);
            proof {
                lemma2_to64();
                assert forall|x: int| self.spec_allocated().dom().contains(x)
                    implies self.spec_frames()[x] == old(self).spec_frames()[x] by {
                    assert(x != ii);
                    Self::lemma_allocated_in_range(*old(self), x);
                    assert(self.spec_frames()[x] == before_co.spec_frames()[x]);
                    assert(before_co.spec_frames()[x] == marked.spec_frames()[x]);
                }
                // With nothing drained, the lists and descriptors at the
                // coalesce step are exactly the marked originals.
                if amount == 0 {
                    assert(before_co.spec_lists() == old(self).spec_lists());
                    assert(before_co.spec_frames() == marked.spec_frames());
                    assert(self.spec_caches() == old(self).spec_caches());
                }
            }
        }
    }

    /// Marking the head of a handed-out block free (while it is still
    /// recorded as handed out) keeps the allocator well-formed.
    proof fn lemma_mark_free_wf(pre: Self, post: Self, idx: usize)
        requires
            pre.wf(),
            pre.spec_allocated().dom().contains(idx as int),
            post.spec_map() == pre.spec_map(),
            post.spec_lists() == pre.spec_lists(),
            post.spec_free_lists() == pre.spec_free_lists(),
            post.spec_caches() == pre.spec_caches(),
            post.spec_orders() == pre.spec_orders(),
            post.spec_allocated() == pre.spec_allocated(),
            post.spec_frames().len() == pre.spec_frames().len(),
            post.spec_frames()[idx as int].order == pre.spec_frames()[idx as int].order,
            forall|x: int| 0 <= x < pre.spec_frames().len() && x != idx
                ==> post.spec_frames()[x] == pre.spec_frames()[x],
        ensures
            post.wf(),
            post.spec_frames()[idx as int].order == pre.spec_allocated()[idx as int],
    {
        let ii = idx as int;
        let kk = pre.spec_allocated()[ii];
        lemma_pow2_pos(kk);
        assert forall|k1: int, j1: int|
            0 <= k1 < post.spec_lists().len() && 0 <= j1 < post.spec_lists()[k1].len()
            implies {
                let i = #[trigger] post.spec_lists()[k1][j1] as int;
                &&& post.valid_block(i, k1 as nat)
                &&& post.spec_frames()[i].state is Free
                &&& post.spec_frames()[i].order == k1
            } by {
            let i = post.spec_lists()[k1][j1] as int;
            assert(blocks_disjoint(i, k1 as nat, ii, kk));
            lemma_pow2_pos(k1 as nat);
            assert(i != ii);
        }
        assert forall|h1: int, j1: int|
            0 <= h1 < post.spec_caches().len() && 0 <= j1 < post.spec_caches()[h1].len()
            implies {
                let i = #[trigger] post.spec_caches()[h1][j1] as int;
                &&& post.valid_block(i, 0)
                &&& post.spec_frames()[i].state is Free
                &&& post.spec_frames()[i].order == 0
            } by {
            let i = post.spec_caches()[h1][j1] as int;
            assert(blocks_disjoint(i, 0, ii, kk));
            lemma2_to64();
            assert(i != ii);
        }
        assert forall|i: int| #[trigger] post.spec_allocated().dom().contains(i)
            implies {
                &&& post.valid_block(i, post.spec_allocated()[i])
                &&& post.spec_frames()[i].order == post.spec_allocated()[i]
            } by {
            if i != ii {
                assert(blocks_disjoint(i, pre.spec_allocated()[i], ii, kk));
                lemma_pow2_pos(pre.spec_allocated()[i]);
                assert(i != ii);
            }
        }
    }

    /// Read access to a hart cache's fill level.
    pub fn cache_len(&self, hart: usize) -> (r: usize)
        requires
            hart < MAX_HARTS,
            self.spec_caches().len() == MAX_HARTS,
        ensures
            r == self.spec_caches()[hart as int].len(),
    {
        let c = &self.hart_caches[hart];
        c.len()
    }

    /// Quarters the target size of one hart's cache; at zero the cache is
    /// effectively disabled.
    pub fn shrink_cache(&mut self, hart: usize)
        requires
            old(self).wf(),
            hart < MAX_HARTS,
        ensures
            final(self).wf(),
            Self::same_state(*final(self), *old(self)),
            final(self).spec_frames() == old(self).spec_frames(),
            final(self).spec_cache_target(hart as int)
                == old(self).spec_cache_target(hart as int) / 4,
            forall|h: int| 0 <= h < MAX_HARTS && h != hart
                ==> final(self).spec_cache_target(h) == old(self).spec_cache_target(h),
    {
        let c = &mut self.hart_caches[hart];
        c.shrink();
        proof {
            assert(self.spec_caches() =~= old(self).spec_caches());
            assert(Self::same_state(*self, *old(self)));
            assert(self.spec_free_lists() == old(self).spec_free_lists());
        }
    }

    /// Turns a handed-out page into a slab head carrying the given free
    /// slot stack; used by the slab allocator when it cuts a fresh page.
    pub fn convert_to_slab(&mut self, idx: usize, cache: usize, free_slots: Vec<usize>)
        requires
            old(self).wf(),
            old(self).spec_allocated().dom().contains(idx as int),
        ensures
            final(self).wf(),
            final(self).spec_map() == old(self).spec_map(),
            final(self).spec_orders() == old(self).spec_orders(),
            final(self).spec_lists() == old(self).spec_lists(),
            final(self).spec_caches() == old(self).spec_caches(),
            final(self).spec_allocated() == old(self).spec_allocated(),
            final(self).spec_frames().len() == old(self).spec_frames().len(),
            final(self).spec_frames()[idx as int].state == State::Slab(
                crate::frame::SlabInfo { cache, free_slots: free_slots, in_use_count: 0 },
            ),
            final(self).spec_frames()[idx as int].order
                == old(self).spec_frames()[idx as int].order,
            forall|x: int| 0 <= x < old(self).spec_frames().len() && x != idx
                ==> final(self).spec_frames()[x] == old(self).spec_frames()[x],
    {
        proof {
            Self::lemma_allocated_in_range(*old(self), idx as int);
        }
        {
            let fr = &mut self.frames[idx];
            fr.convert_to_slab(cache, free_slots);
        }
        proof {
            Self::lemma_mark_free_wf(*old(self), *self, idx);
        }
    }

    /// Takes the next free slot out of a slab page, counting it in use.
    pub fn slab_pop_slot(&mut self, idx: usize) -> (r: Option<usize>)
        requires
            old(self).wf(),
            old(self).spec_allocated().dom().contains(idx as int),
            old(self).spec_frames()[idx as int].state is Slab,
            old(self).spec_frames()[idx as int].state->Slab_0.in_use_count < usize::MAX,
        ensures
            final(self).wf(),
            final(self).spec_map() == old(self).spec_map(),
            final(self).spec_orders() == old(self).spec_orders(),
            final(self).spec_lists() == old(self).spec_lists(),
            final(self).spec_caches() == old(self).spec_caches(),
            final(self).spec_allocated() == old(self).spec_allocated(),
            final(self).spec_frames().len() == old(self).spec_frames().len(),
            forall|x: int| 0 <= x < old(self).spec_frames().len() && x != idx
                ==> final(self).spec_frames()[x] == old(self).spec_frames()[x],
            final(self).spec_frames()[idx as int].state is Slab,
            final(self).spec_frames()[idx as int].order
                == old(self).spec_frames()[idx as int].order,
            final(self).spec_frames()[idx as int].state->Slab_0.cache
                == old(self).spec_frames()[idx as int].state->Slab_0.cache,
            ({
                let info = old(self).spec_frames()[idx as int].state->Slab_0;
                let info2 = final(self).spec_frames()[idx as int].state->Slab_0;
                &&& (info.free_slots@.len() == 0 ==> r is None && info2 == info)
                &&& (info.free_slots@.len() > 0 ==> {
                    &&& r == Some(info.free_slots@.last())
                    &&& info2.free_slots@ == info.free_slots@.drop_last()
                    &&& info2.in_use_count == info.in_use_count + 1
                })
            }),
    {
        proof {
            Self::lemma_allocated_in_range(*old(self), idx as int);
        }
        let r = {
            let fr = &mut self.frames[idx];
            fr.slab_pop_slot()
        };
        proof {
            Self::lemma_mark_free_wf(*old(self), *self, idx);
        }
        r
    }

    /// Threads a freed slot back onto its slab page's free stack.
    pub fn slab_push_slot(&mut self, idx: usize, slot: usize)
        requires
            old(self).wf(),
            old(self).spec_allocated().dom().contains(idx as int),
            old(self).spec_frames()[idx as int].state is Slab,
            old(self).spec_frames()[idx as int].state->Slab_0.in_use_count >= 1,
            old(self).spec_frames()[idx as int].state->Slab_0.free_slots@.len() < usize::MAX,
        ensures
            final(self).wf(),
            final(self).spec_map() == old(self).spec_map(),
            final(self).spec_orders() == old(self).spec_orders(),
            final(self).spec_lists() == old(self).spec_lists(),
            final(self).spec_caches() == old(self).spec_caches(),
            final(self).spec_allocated() == old(self).spec_allocated(),
            final(self).spec_frames().len() == old(self).spec_frames().len(),
            forall|x: int| 0 <= x < old(self).spec_frames().len() && x != idx
                ==> final(self).spec_frames()[x] == old(self).spec_frames()[x],
            final(self).spec_frames()[idx as int].state is Slab,
            final(self).spec_frames()[idx as int].order
                == old(self).spec_frames()[idx as int].order,
            final(self).spec_frames()[idx as int].state->Slab_0.cache
                == old(self).spec_frames()[idx as int].state->Slab_0.cache,
            final(self).spec_frames()[idx as int].state->Slab_0.free_slots@
                == old(self).spec_frames()[idx as int].state->Slab_0.free_slots@.push(slot),
            final(self).spec_frames()[idx as int].state->Slab_0.in_use_count
                == old(self).spec_frames()[idx as int].state->Slab_0.in_use_count - 1,
    {
        proof {
            Self::lemma_allocated_in_range(*old(self), idx as int);
        }
        {
            let fr = &mut self.frames[idx];
            fr.slab_push_slot(slot);
        }
        proof {
            Self::lemma_mark_free_wf(*old(self), *self, idx);
        }
    }
}

/// Splitting a free block of order `k` yields two aligned halves that are
/// buddies of each other at order `k - 1`, and coalescing those buddies
/// restores the original block: the lower-addressed half is the original
/// head, and the two halves together are exactly the original extent.
pub proof fn lemma_split_coalesce_round_trip(a: int, k: nat)
    requires
        1 <= k <= 51,
        0 <= a,
        a + pow2((k + 12) as nat) <= u64::MAX,
        aligned_to_pow2(a, (k + 12) as nat),
    ensures
        spec_buddy_addr(a, (k - 1) as nat) == a + pow2((k + 11) as nat),
        spec_buddy_addr(a + pow2((k + 11) as nat), (k - 1) as nat) == a,
        aligned_to_pow2(a, (k + 11) as nat),
        aligned_to_pow2(a + pow2((k + 11) as nat), (k + 11) as nat),
        pow2((k + 11) as nat) + pow2((k + 11) as nat) == pow2((k + 12) as nat),
{
    crate::arith::lemma_split_halves(a, (k + 12) as nat);
    lemma_pow2_pos((k + 11) as nat);
    lemma_pow2_adds((k + 11) as nat, 1);
    lemma2_to64();
    vstd::bits::lemma_u64_pow2_no_overflow((k + 11) as nat);
    vstd::bits::lemma_u64_pow2_no_overflow((k + 12) as nat);
    let m = pow2((k + 11) as nat) as int;
    lemma_buddy_xor(a as u64, (k + 11) as nat);
    let b = spec_buddy_addr(a, (k - 1) as nat);
    assert(b == ((a as u64) ^ (pow2((k + 11) as nat) as u64)) as int);
    if b < a {
        // Then the buddy below `a` would be aligned to the full block,
        // contradicting `a`'s own alignment.
        assert(a == b + m);
        let m2 = pow2((k + 12) as nat) as int;
        lemma_fundamental_div_mod(a, m2);
        let q = a / m2;
        assert(a == m2 * q);
        assert((b as u64) % (pow2((k + 12) as nat) as u64) == 0);
        lemma_fundamental_div_mod(b, m2);
        let qb = b / m2;
        assert(b == m2 * qb);
        assert(m == m2 * q - m2 * qb) by (nonlinear_arith)
            requires a == m2 * q && b == m2 * qb && a == b + m,
        ;
        assert(m == m2 * (q - qb)) by (nonlinear_arith)
            requires m == m2 * q - m2 * qb,
        ;
        assert(false) by (nonlinear_arith)
            requires m == m2 * (q - qb) && m2 == 2 * m && m > 0,
        ;
    }
    assert(b == a + m);
    lemma_buddy_xor((a + m) as u64, (k + 11) as nat);
}

/// Releasing a block right after it was split off undoes the split on
/// the free lists exactly: each split-off buddy is re-merged on the way
/// up and the block returns to the front of the list it was taken from.
/// This is the dealloc-after-alloc round trip on the pool contents, for
/// the path that bypasses the per-hart caches.
#[verifier::rlimit(100)]
#[verifier::spinoff_prover]
pub proof fn lemma_split_then_coalesce_round_trip(
    map: PhysicalMemoryMap,
    orders: u8,
    ll: Seq<Seq<usize>>,
    frames: Seq<Frame>,
    frames1: Seq<Frame>,
    h: int,
    f: int,
    k: nat,
)
    requires
        map.wf(),
        0 <= k <= f < orders,
        orders <= 51,
        ll.len() == orders,
        0 < ll[f as int].len(),
        h == ll[f as int][0],
        0 <= h,
        h + pow2(f as nat) <= frames.len(),
        frames1.len() == frames.len(),
        map.free_memory.start.0 <= map.ram.start.0 + h * BASE_SIZE,
        map.ram.start.0 + h * BASE_SIZE + pow2(f as nat) * BASE_SIZE
            <= map.free_memory.spec_end(),
        aligned_to_pow2(map.ram.start.0 + h * BASE_SIZE, (f + 12) as nat),
        // The state after the split: the head carries the requested
        // order, each split-off upper buddy is a free head of its order,
        // and every other descriptor is untouched.
        frames1[h].state is Free && frames1[h].order == k,
        forall|j: int| k <= j < f ==> (#[trigger] frames1[h + pow2(j as nat)]).state is Free
            && frames1[h + pow2(j as nat)].order == j,
        forall|x: int| 0 <= x < frames.len() && (x < h || x >= h + pow2(f as nat))
            ==> frames1[x] == frames[x],
        // No split-off buddy was already listed, and the whole block's own
        // buddy is not a mergeable listed block (it never is in a
        // well-formed allocator).
        forall|j: int| k <= j < f
            ==> !ll[j].contains(((h + pow2(j as nat)) as usize)),
        !spec_can_merge(
            map,
            orders,
            ll.update(f as int, ll[f as int].drop_first()),
            frames1,
            h,
            f as nat,
        ),
    ensures
        spec_coalesce(map, orders, split_lists(ll, h, f as int, k as int), frames1, h, k).0
            == ll,
    decreases f - k,
{
    let b = BASE_SIZE as int;
    let a = map.ram.start.0 + h * b;
    lemma_pow2_adds(k as nat, 12);
    lemma2_to64();
    let ll1 = split_lists(ll, h, f as int, k as int);
    if k == f {
        assert(ll1 =~= ll.update(f as int, ll[f as int].drop_first()));
        lemma_coalesce_base(map, orders, ll1, frames1, h, k);
        assert(seq![(h as usize)].add(ll1[f as int]) =~= ll[f as int]);
        assert(ll1.update(f as int, seq![(h as usize)].add(ll1[f as int])) =~= ll);
    } else {
        // The buddy of the current block is the split-off upper half just
        // below the top: merging consumes it.
        let ba = spec_buddy_addr(a, k);
        let bi = (ba - map.ram.start.0) / b;
        lemma_aligned_weaken(a, (f + 12) as nat, (k + 13) as nat);
        lemma_aligned_weaken(a, (k + 13) as nat, (k + 12) as nat);
        vstd::layout::unsigned_int_max_values();
        vstd::arithmetic::power2::lemma2_to64_rest();
        assert(usize::BITS == 32 || usize::BITS == 64);
        lemma_pow2_strictly_increases(32, 64);
        assert(usize::MAX as int <= u64::MAX as int);
        lemma_pow2_pos(f as nat);
        assert(pow2(f as nat) * b >= b) by (nonlinear_arith)
            requires pow2(f as nat) >= 1 && b > 0,
        ;
        assert(0 <= a <= u64::MAX as int);
        vstd::bits::lemma_u64_pow2_no_overflow((k + 12) as nat);
        vstd::bits::lemma_u64_pow2_no_overflow((k + 13) as nat);
        lemma_buddy_xor(a as u64, (k + 12) as nat);
        lemma_pow2_adds((k + 12) as nat, 1);
        assert(ba > a) by {
            if ba < a {
                // The lower buddy would be aligned to twice the block,
                // which the head already is; both cannot hold.
                let m2 = pow2((k + 13) as nat) as int;
                lemma_fundamental_div_mod(a, m2);
                let q = a / m2;
                assert(a == m2 * q);
                assert(m2 * q == q * m2) by (nonlinear_arith);
                assert((ba as u64) % (pow2((k + 13) as nat) as u64) == 0);
                assert(0 <= ba <= u64::MAX as int);
                assert(ba % m2 == 0);
                lemma_fundamental_div_mod(ba, m2);
                let qb = ba / m2;
                assert(ba == m2 * qb);
                let m = pow2((k + 12) as nat) as int;
                assert(a == ba + m);
                assert(m == m2 * q - m2 * qb) by (nonlinear_arith)
                    requires a == m2 * q && ba == m2 * qb && a == ba + m,
                ;
                assert(m == m2 * (q - qb)) by (nonlinear_arith)
                    requires m == m2 * q - m2 * qb,
                ;
                assert(false) by (nonlinear_arith)
                    requires m == m2 * (q - qb) && m2 == 2 * m && m > 0,
                ;
            }
        }
        assert(ba == a + pow2((k + 12) as nat));
        assert(bi == h + pow2(k as nat)) by {
            assert(ba - map.ram.start.0 == (h + pow2(k as nat)) * b) by (nonlinear_arith)
                requires ba - map.ram.start.0 == h * b + pow2(k as nat) * b
                    && (h + pow2(k as nat)) * b == h * b + pow2(k as nat) * b,
            ;
            lemma_fundamental_div_mod_converse(ba - map.ram.start.0, b, h + pow2(k as nat), 0);
        }
        assert(spec_can_merge(map, orders, ll1, frames1, h, k)) by {
            lemma_pow2_pos(k as nat);
            vstd::arithmetic::power2::lemma_pow2_strictly_increases(k as nat, f as nat);
            assert((pow2(k as nat) * b) < pow2(f as nat) * b) by (nonlinear_arith)
                requires pow2(k as nat) < pow2(f as nat) && b > 0,
            ;
            assert(map.free_memory.spec_contains(ba));
            assert(ll1[k as int][0] == (bi as usize));
            assert(ll1[k as int].contains((bi as usize)));
        }
        lemma_coalesce_step(map, orders, ll1, frames1, h, k);
        // The removed occurrence is the split-off buddy at the front.
        assert forall|j: int| 0 <= j < ll1[k as int].len()
            && ll1[k as int][j] == (bi as usize) implies j == 0 by {
            if j > 0 {
                assert(ll1[k as int][j] == ll[k as int][j - 1]);
                assert(ll[k as int].contains(((h + pow2(k as nat)) as usize)));
            }
        }
        let q0 = ll1[k as int].index_of((bi as usize));
        assert(ll1[k as int][q0] == (bi as usize));
        assert(q0 == 0);
        let lists2 = ll1.update(k as int, ll1[k as int].remove(0));
        assert(ll1[k as int].remove(0) =~= ll[k as int]);
        assert(lists2 =~= split_lists(ll, h, f as int, (k + 1) as int));
        let frames2 = frames1.update(h, Frame { order: (k + 1) as u8, ..frames1[h] });
        // The updated descriptors satisfy the split shape one order up.
        assert forall|j: int| k + 1 <= j < f
            implies (#[trigger] frames2[h + pow2(j as nat)]).state is Free
            && frames2[h + pow2(j as nat)].order == j by {
            lemma_pow2_pos(j as nat);
            vstd::arithmetic::power2::lemma_pow2_strictly_increases(j as nat, f as nat);
            assert(h + pow2(j as nat) < frames.len());
            assert(h + pow2(j as nat) != h);
            assert(frames2[h + pow2(j as nat)] == frames1[h + pow2(j as nat)]);
            assert(frames1[h + pow2(j as nat)].state is Free);
        }
        assert forall|x: int| 0 <= x < frames.len() && (x < h || x >= h + pow2(f as nat))
            implies frames2[x] == frames[x] by {
            lemma_pow2_pos(f as nat);
            assert(x != h);
            assert(frames2[x] == frames1[x]);
        }
        assert(!spec_can_merge(
            map,
            orders,
            ll.update(f as int, ll[f as int].drop_first()),
            frames2,
            h,
            f as nat,
        )) by {
            // The block's own buddy lies a full block away, so it is not
            // the head whose order the merge step changed.
            let ba_f = spec_buddy_addr(a, f as nat);
            let bi_f = (ba_f - map.ram.start.0) / b;
            vstd::bits::lemma_u64_pow2_no_overflow((f + 12) as nat);
            lemma_buddy_xor(a as u64, (f + 12) as nat);
            lemma_pow2_adds(f as nat, 12);
            if 0 <= bi_f < frames2.len() {
                assert(bi_f != h) by {
                    if ba_f > a {
                        assert(ba_f == a + pow2((f + 12) as nat));
                        assert(ba_f - map.ram.start.0 == (h + pow2(f as nat)) * b)
                            by (nonlinear_arith)
                            requires ba_f - map.ram.start.0 == h * b + pow2(f as nat) * b
                                && (h + pow2(f as nat)) * b == h * b + pow2(f as nat) * b,
                        ;
                        lemma_fundamental_div_mod_converse(
                            ba_f - map.ram.start.0,
                            b,
                            h + pow2(f as nat),
                            0,
                        );
                        lemma_pow2_pos(f as nat);
                    } else {
                        assert(a == ba_f + pow2((f + 12) as nat));
                        assert(ba_f - map.ram.start.0 == (h - pow2(f as nat)) * b)
                            by (nonlinear_arith)
                            requires ba_f - map.ram.start.0 == h * b - pow2(f as nat) * b
                                && (h - pow2(f as nat)) * b == h * b - pow2(f as nat) * b,
                        ;
                        lemma_fundamental_div_mod_converse(
                            ba_f - map.ram.start.0,
                            b,
                            h - pow2(f as nat),
                            0,
                        );
                        lemma_pow2_pos(f as nat);
                    }
                }
                assert(frames2[bi_f] == frames1[bi_f]);
            }
        }
        lemma_split_then_coalesce_round_trip(
            map,
            orders,
            ll,
            frames,
            frames2,
            h,
            f,
            (k + 1) as nat,
        );
    }
}

} // verus!
