use kmem::address::PhysicalAddress;
use kmem::frame::{State, BASE_SIZE};
use kmem::frame_allocator::FrameAllocator;
use kmem::pmem_map::{MemoryRegion, PhysicalMemoryMap};

const RAM_START: usize = 0x8000_0000;
const RAM_PAGES: usize = 128;

/// A map whose free pool is exactly 64 pages, starting 64 pages into RAM,
/// so the pool start is aligned to an order-6 block.
fn test_map() -> PhysicalMemoryMap {
    let ram = MemoryRegion::new(PhysicalAddress::new(RAM_START), RAM_PAGES * BASE_SIZE);
    let kernel = MemoryRegion::new(PhysicalAddress::new(RAM_START), 32 * BASE_SIZE);
    let frame_pool = MemoryRegion::new(PhysicalAddress::new(RAM_START + 32 * BASE_SIZE), 16 * BASE_SIZE);
    let metadata = MemoryRegion::new(PhysicalAddress::new(RAM_START + 48 * BASE_SIZE), 16 * BASE_SIZE);
    let free = MemoryRegion::new(PhysicalAddress::new(RAM_START + 64 * BASE_SIZE), 64 * BASE_SIZE);
    PhysicalMemoryMap {
        ram,
        kernel,
        frame_pool,
        frame_allocator_metadata: metadata,
        free_memory: free,
    }
}

fn pool_start() -> usize {
    RAM_START + 64 * BASE_SIZE
}

/// Turns off hart 0's order-0 cache so allocations and releases go to the
/// global lists directly.
fn disable_cache(fa: &mut FrameAllocator) {
    // 16 -> 4 -> 1 -> 0
    fa.shrink_cache(0);
    fa.shrink_cache(0);
    fa.shrink_cache(0);
}

#[test]
fn greedy_init_one_order_six_block() {
    let fa = FrameAllocator::init(&test_map());
    assert_eq!(fa.orders(), 8); // 128 frames -> log2 + 1
    assert_eq!(fa.bitmap(), 0b1000000);
    let head = 64; // frame index of the pool start
    assert_eq!(fa.frame(head).order, 6);
    assert!(matches!(fa.frame(head).state, State::Free));
}

#[test]
fn single_page_alloc_splits_down() {
    let mut fa = FrameAllocator::init(&test_map());
    disable_cache(&mut fa);
    let a = fa.allocate(0, 4096, 8).expect("allocation");
    assert_eq!(a.as_usize(), pool_start());
    assert_eq!(fa.bitmap(), 0b0111111);
    // Buddies left behind at A+4096, A+8192, A+16384, A+32768, A+65536,
    // A+131072, with orders 0..=5.
    let buddies = [
        (65usize, 0u8),
        (66, 1),
        (68, 2),
        (72, 3),
        (80, 4),
        (96, 5),
    ];
    for (idx, order) in buddies {
        assert!(matches!(fa.frame(idx).state, State::Free));
        assert_eq!(fa.frame(idx).order, order);
    }
    assert!(matches!(fa.frame(64).state, State::Allocated));
    assert_eq!(fa.frame(64).order, 0);
}

#[test]
fn coalesce_back_restores_the_block() {
    let mut fa = FrameAllocator::init(&test_map());
    disable_cache(&mut fa);
    let a = fa.allocate(0, 4096, 8).expect("allocation");
    assert_eq!(fa.bitmap(), 0b0111111);
    fa.dealloc(0, a, 4096, 8);
    assert_eq!(fa.bitmap(), 0b1000000);
    assert_eq!(fa.frame(64).order, 6);
    assert!(matches!(fa.frame(64).state, State::Free));
}

#[test]
fn alloc_dealloc_round_trip_multi_page() {
    let mut fa = FrameAllocator::init(&test_map());
    disable_cache(&mut fa);
    // An order-2 block: 4 pages.
    let a = fa.allocate(0, 4 * BASE_SIZE, 8).expect("allocation");
    assert_eq!(a.as_usize(), pool_start());
    fa.dealloc(0, a, 4 * BASE_SIZE, 8);
    assert_eq!(fa.bitmap(), 0b1000000);
}

#[test]
fn zero_size_gets_dangling_sentinel() {
    let mut fa = FrameAllocator::init(&test_map());
    let a = fa.allocate(0, 0, 8).expect("sentinel");
    assert_ne!(a.as_usize(), 0);
    let bitmap = fa.bitmap();
    // A matching release is accepted and is a no-op.
    fa.dealloc(0, a, 0, 8);
    assert_eq!(fa.bitmap(), bitmap);
}

#[test]
fn large_alignment_is_unsupported() {
    let mut fa = FrameAllocator::init(&test_map());
    assert!(fa.allocate(0, 4096, BASE_SIZE).is_some());
    assert!(fa.allocate(0, 4096, 2 * BASE_SIZE).is_none());
}

#[test]
fn pool_sized_request_fails() {
    let mut fa = FrameAllocator::init(&test_map());
    assert!(fa.allocate(0, 64 * BASE_SIZE, 8).is_none());
}

#[test]
fn oom_at_exact_boundary() {
    let mut fa = FrameAllocator::init(&test_map());
    disable_cache(&mut fa);
    let first = fa.allocate(0, 32 * BASE_SIZE, 8).expect("first half");
    let second = fa.allocate(0, 32 * BASE_SIZE, 8).expect("second half");
    assert_ne!(first.as_usize(), second.as_usize());
    assert_eq!(fa.bitmap(), 0);
    assert!(fa.allocate(0, 4096, 8).is_none());
}

#[test]
fn cross_hart_caches_leave_the_global_lists_alone() {
    let mut fa = FrameAllocator::init(&test_map());
    // Warm both harts' caches.
    let a0 = fa.allocate(0, 4096, 8).expect("hart 0 warm-up");
    let a1 = fa.allocate(1, 4096, 8).expect("hart 1 warm-up");
    assert_ne!(a0.as_usize(), a1.as_usize());
    assert!(fa.cache_len(0) > 0);
    assert!(fa.cache_len(1) > 0);
    let warm = fa.bitmap();
    // Further single-page traffic is served hart-locally.
    let b0 = fa.allocate(0, 4096, 8).expect("hart 0 cached");
    let b1 = fa.allocate(1, 4096, 8).expect("hart 1 cached");
    assert_eq!(fa.bitmap(), warm);
    assert_ne!(b0.as_usize(), b1.as_usize());
    fa.dealloc(0, b0, 4096, 8);
    fa.dealloc(1, b1, 4096, 8);
    assert_eq!(fa.bitmap(), warm);
}

#[test]
fn order_from_size_rounds_to_pages() {
    let fa = FrameAllocator::init(&test_map());
    assert_eq!(fa.order_from_size(1), 0);
    assert_eq!(fa.order_from_size(4096), 0);
    assert_eq!(fa.order_from_size(4097), 1);
    assert_eq!(fa.order_from_size(2 * 4096), 1);
    assert_eq!(fa.order_from_size(3 * 4096), 2);
    assert_eq!(fa.order_from_size(32 * 4096), 5);
}

#[test]
fn cached_page_reuse_is_lifo() {
    let mut fa = FrameAllocator::init(&test_map());
    let a = fa.allocate(0, 4096, 8).expect("allocation");
    fa.dealloc(0, a, 4096, 8);
    let b = fa.allocate(0, 4096, 8).expect("reuse");
    assert_eq!(a.as_usize(), b.as_usize());
}

#[test]
fn balanced_traffic_restores_the_pool() {
    let mut fa = FrameAllocator::init(&test_map());
    disable_cache(&mut fa);
    let init_bitmap = fa.bitmap();
    let a = fa.allocate(0, 4096, 8).expect("page");
    let b = fa.allocate(0, 8 * BASE_SIZE, 8).expect("order 3");
    let c = fa.allocate(0, 2 * BASE_SIZE, 8).expect("order 1");
    fa.dealloc(0, c, 2 * BASE_SIZE, 8);
    fa.dealloc(0, a, 4096, 8);
    fa.dealloc(0, b, 8 * BASE_SIZE, 8);
    // With the cache bypassed, the final bitmap and every pool frame are
    // back to the state right after initialization.
    assert_eq!(fa.bitmap(), init_bitmap);
    for idx in 64..128 {
        assert!(matches!(fa.frame(idx).state, State::Free));
    }
    assert_eq!(fa.frame(64).order, 6);
}
