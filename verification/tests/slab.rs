use kmem::address::PhysicalAddress;
use kmem::frame::{State, BASE_SIZE};
use kmem::frame_allocator::FrameAllocator;
use kmem::pmem_map::{MemoryRegion, PhysicalMemoryMap};
use kmem::slub::{KernelAllocator, SizeClassManager, SlubAllocator};

const RAM_START: usize = 0x8000_0000;

fn test_map() -> PhysicalMemoryMap {
    let ram = MemoryRegion::new(PhysicalAddress::new(RAM_START), 128 * BASE_SIZE);
    let kernel = MemoryRegion::new(PhysicalAddress::new(RAM_START), 32 * BASE_SIZE);
    let frame_pool = MemoryRegion::new(PhysicalAddress::new(RAM_START + 32 * BASE_SIZE), 16 * BASE_SIZE);
    let metadata = MemoryRegion::new(PhysicalAddress::new(RAM_START + 48 * BASE_SIZE), 16 * BASE_SIZE);
    let free = MemoryRegion::new(PhysicalAddress::new(RAM_START + 64 * BASE_SIZE), 64 * BASE_SIZE);
    PhysicalMemoryMap {
        ram,
        kernel,
        frame_pool,
        frame_allocator_metadata: metadata,
        free_memory: free,
    }
}

#[test]
fn small_request_routes_to_class_32() {
    let slub = SlubAllocator::new(1);
    assert_eq!(slub.find_size_class(24), Some(2)); // classes 8, 16, 32, ...
    assert_eq!(slub.find_size_class(8), Some(0));
    assert_eq!(slub.find_size_class(9), Some(1));
    assert_eq!(slub.find_size_class(2048), Some(8));
    assert_eq!(slub.find_size_class(2049), None);
}

#[test]
fn new_slab_links_all_slots() {
    let mut fa = FrameAllocator::init(&test_map());
    let mut scm = SizeClassManager::new(1, 32);
    assert_eq!(scm.slots_per_slab(), 128);
    let s = scm.allocate(&mut fa, 0).expect("slot");
    // The slot lies inside the free pool, on a 32-byte boundary.
    assert!(s >= RAM_START + 64 * BASE_SIZE);
    assert!(s < RAM_START + 128 * BASE_SIZE);
    assert_eq!((s - RAM_START) % 32, 0);
    // The backing page's frame now serves as a slab.
    let idx = (s - RAM_START) / BASE_SIZE;
    assert!(matches!(fa.frame(idx).state, State::Slab(_)));
}

#[test]
fn slab_exhaustion_creates_a_second_slab() {
    let mut fa = FrameAllocator::init(&test_map());
    let mut scm = SizeClassManager::new(1, 32);
    let mut slots = Vec::new();
    for _ in 0..128 {
        slots.push(scm.allocate(&mut fa, 0).expect("slot"));
    }
    // All 128 slots come from one page.
    let first_page = (slots[0] - RAM_START) / BASE_SIZE;
    for s in &slots {
        assert_eq!((s - RAM_START) / BASE_SIZE, first_page);
    }
    // A fully used slab sits on neither list.
    assert_eq!(scm.partial_count(), 0);
    assert_eq!(scm.empty_count(), 0);
    // The next allocation needs a fresh page.
    let s129 = scm.allocate(&mut fa, 0).expect("second slab");
    assert_ne!((s129 - RAM_START) / BASE_SIZE, first_page);
}

#[test]
fn distinct_slots_within_a_slab() {
    let mut fa = FrameAllocator::init(&test_map());
    let mut scm = SizeClassManager::new(1, 64);
    let mut slots = Vec::new();
    for _ in 0..64 {
        slots.push(scm.allocate(&mut fa, 0).expect("slot"));
    }
    slots.sort();
    slots.dedup();
    assert_eq!(slots.len(), 64);
}

#[test]
fn empty_slabs_are_capped_and_released() {
    let mut fa = FrameAllocator::init(&test_map());
    // 2048-byte objects: two slots per slab, cache target 8.
    let mut scm = SizeClassManager::new(1, 2048);
    assert_eq!(scm.slots_per_slab(), 2);
    let free_before = fa.bitmap();
    let mut slots = Vec::new();
    for _ in 0..24 {
        slots.push(scm.allocate(&mut fa, 0).expect("slot"));
    }
    // Freeing everything fills the hart cache (8 slots) and then returns
    // the rest to their slabs; fully free slabs accumulate on the empty
    // list, and the cap keeps at most a few of them warm, releasing the
    // oldest pages back to the buddy allocator.
    for s in slots {
        scm.dealloc(&mut fa, 0, s);
    }
    assert!(scm.empty_count() < 4);
    let _ = free_before;
}

#[test]
fn partial_then_empty_transitions() {
    let mut fa = FrameAllocator::init(&test_map());
    let mut scm = SizeClassManager::new(1, 2048);
    // Take 10 slots: five slabs, two slots each.
    let mut slots = Vec::new();
    for _ in 0..10 {
        slots.push(scm.allocate(&mut fa, 0).expect("slot"));
    }
    // Free nine: the first eight park in the hart cache; the ninth goes
    // back to its slab, which was fully used, so it becomes partial.
    for s in slots.drain(0..9) {
        scm.dealloc(&mut fa, 0, s);
    }
    assert!(scm.partial_count() + scm.empty_count() >= 1);
    // Free the last one: its slab ends fully free.
    for s in slots {
        scm.dealloc(&mut fa, 0, s);
    }
    assert!(scm.empty_count() >= 1);
}

#[test]
fn facade_routes_small_and_large() {
    let mut fa = FrameAllocator::init(&test_map());
    let mut ka = KernelAllocator::new();
    // Uninitialized: nothing is served.
    assert!(ka.allocate(&mut fa, 0, 24, 8).is_none());
    ka.slub.set(SlubAllocator::new(1)).ok().expect("publish");
    let small = ka.allocate(&mut fa, 0, 24, 8).expect("slab path");
    assert_eq!((small - RAM_START) % 8, 0);
    let large = ka.allocate(&mut fa, 0, 3 * BASE_SIZE, 8).expect("buddy path");
    assert_eq!((large - RAM_START) % BASE_SIZE, 0);
    ka.dealloc(&mut fa, 0, small, 24, 8);
    ka.dealloc(&mut fa, 0, large, 3 * BASE_SIZE, 8);
}

#[test]
fn facade_set_publishes_once() {
    let mut ka = KernelAllocator::new();
    assert!(!ka.slub.is_initialized());
    assert!(ka.slub.set(SlubAllocator::new(1)).is_ok());
    assert!(ka.slub.is_initialized());
    assert!(ka.slub.set(SlubAllocator::new(1)).is_err());
}
