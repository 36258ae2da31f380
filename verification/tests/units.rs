use kmem::address::PhysicalAddress;
use kmem::arith::{log2_floor, pow2_usize};
use kmem::frame::{Frame, State, BASE_SIZE};
use kmem::free_lists::{Bitmap, FreeLists};
use kmem::hart_cache::{CacheStrategy, Greedy, HartCache, Quartering};
use kmem::intrusive_list::IntrusiveList;
use kmem::once_lock::OnceLock;
use kmem::pmem_map::{align_up, MemoryRegion, PhysicalMemoryMap};
use kmem::singly_linked_list::SinglyLinkedList;
use kmem::spinlock::Spinlock;

#[test]
fn address_arithmetic() {
    let a = PhysicalAddress::new(0x1000);
    assert_eq!(a.as_usize(), 0x1000);
    assert_eq!(a.offset(0x234).as_usize(), 0x1234);
    assert_eq!(a.offset(0x234).offset_from(a), 0x234);
}

#[test]
fn region_contains_is_half_open() {
    let r = MemoryRegion::new(PhysicalAddress::new(0x2000), 0x1000);
    assert!(!r.contains(PhysicalAddress::new(0x1fff)));
    assert!(r.contains(PhysicalAddress::new(0x2000)));
    assert!(r.contains(PhysicalAddress::new(0x2fff)));
    assert!(!r.contains(PhysicalAddress::new(0x3000)));
    assert_eq!(r.end().as_usize(), 0x3000);
}

#[test]
fn align_up_rounds_to_multiples() {
    assert_eq!(align_up(0, 4096), 0);
    assert_eq!(align_up(1, 4096), 4096);
    assert_eq!(align_up(4096, 4096), 4096);
    assert_eq!(align_up(4097, 4096), 8192);
    assert_eq!(align_up(100, 8), 104);
}

#[test]
fn power_helpers() {
    assert_eq!(pow2_usize(0), 1);
    assert_eq!(pow2_usize(6), 64);
    assert_eq!(pow2_usize(12), 4096);
    assert_eq!(log2_floor(1), 0);
    assert_eq!(log2_floor(64), 6);
    assert_eq!(log2_floor(65), 6);
    assert_eq!(log2_floor(127), 6);
    assert_eq!(log2_floor(128), 7);
}

#[test]
fn map_layout_is_contiguous() {
    // 64 MiB of RAM with a 1 MiB kernel image at its base.
    let ram_start = PhysicalAddress::new(0x8000_0000);
    let map = PhysicalMemoryMap::calculate(
        ram_start,
        64 * 1024 * 1024,
        ram_start,
        PhysicalAddress::new(0x8010_0000),
    );
    assert_eq!(map.ram.start.as_usize(), 0x8000_0000);
    assert_eq!(map.kernel.size, 0x10_0000);
    assert_eq!(map.frame_pool.start.as_usize(), map.kernel.end().as_usize());
    assert_eq!(
        map.frame_allocator_metadata.start.as_usize(),
        map.frame_pool.end().as_usize()
    );
    assert_eq!(
        map.free_memory.start.as_usize(),
        map.frame_allocator_metadata.end().as_usize()
    );
    assert_eq!(map.free_memory.end().as_usize(), map.ram.end().as_usize());
    assert_eq!(map.free_memory.size % BASE_SIZE, 0);
    // 16384 frames at 64 bytes each: 256 pages of descriptor pool.
    assert_eq!(map.num_frames(), 16384);
    assert_eq!(map.frame_pool.size, 256 * BASE_SIZE);
    let a = PhysicalAddress::new(0x8000_0000 + 5 * BASE_SIZE + 17);
    assert_eq!(map.frame_idx_from_address(a), 5);
    assert_eq!(map.frame_ref_to_address(5).as_usize(), 0x8000_0000 + 5 * BASE_SIZE);
}

#[test]
fn bitmap_set_clear_find() {
    let mut b = Bitmap::new();
    b.set(3);
    b.set(6);
    assert_eq!(b.0, 0b1001000);
    assert_eq!(b.find_first_set_from(0), Some(3));
    assert_eq!(b.find_first_set_from(4), Some(6));
    assert_eq!(b.find_first_set_from(7), None);
    b.clear(3);
    assert_eq!(b.find_first_set_from(0), Some(6));
    b.clear(6);
    assert_eq!(b.find_first_set_from(0), None);
}

#[test]
fn free_lists_track_emptiness() {
    let mut fl = FreeLists::new(4);
    assert_eq!(fl.bitmap_bits(), 0);
    fl.push_frame(10, 2);
    fl.push_frame(11, 2);
    assert_eq!(fl.bitmap_bits(), 0b100);
    assert_eq!(fl.find_first_free_from(0), Some(2));
    assert!(fl.contains_frame(2, 10));
    assert_eq!(fl.pop_frame(2), Some(11)); // front of the list
    fl.remove_frame(10, 2);
    assert_eq!(fl.bitmap_bits(), 0);
    assert_eq!(fl.pop_frame(2), None);
}

#[test]
fn intrusive_list_ends_and_cursor() {
    let mut l: IntrusiveList<usize> = IntrusiveList::new();
    assert!(l.is_empty());
    l.push_back(2);
    l.push_front(1);
    l.push_back(3);
    assert_eq!(l.len(), 3);
    assert_eq!(l.front(), Some(&1));
    assert_eq!(l.back(), Some(&3));
    let mut c = l.cursor_mut();
    assert!(!c.is_dangling());
    assert_eq!(c.current(), Some(&1));
    c.move_next();
    assert_eq!(c.current(), Some(&2));
    c.insert_after(9);
    assert_eq!(c.current(), Some(&9));
    c.insert_before(8);
    assert_eq!(c.current(), Some(&8));
    let removed = c.remove_current();
    assert_eq!(removed, Some(8));
    assert_eq!(c.current(), Some(&9));
    let tail = c.split_after();
    assert_eq!(tail.len(), 1); // the 3
    let mut l = c.into_list();
    assert_eq!(l.pop_back(), Some(9));
    assert_eq!(l.pop_front(), Some(1));
    assert_eq!(l.pop_front(), Some(2));
    assert_eq!(l.pop_front(), None);
}

#[test]
fn cursor_splice_moves_everything() {
    let mut a: IntrusiveList<usize> = IntrusiveList::new();
    a.push_back(1);
    a.push_back(4);
    let mut b: IntrusiveList<usize> = IntrusiveList::new();
    b.push_back(2);
    b.push_back(3);
    let mut c = a.cursor_mut();
    c.splice_after(&mut b);
    assert!(b.is_empty());
    let mut l = c.into_list();
    assert_eq!(l.pop_front(), Some(1));
    assert_eq!(l.pop_front(), Some(2));
    assert_eq!(l.pop_front(), Some(3));
    assert_eq!(l.pop_front(), Some(4));
}

#[test]
fn singly_linked_list_drains_from_the_front() {
    let mut l: SinglyLinkedList<u32> = SinglyLinkedList::new();
    l.push_front(3);
    l.push_front(2);
    l.push_front(1);
    assert_eq!(l.front(), Some(&1));
    let mut it = l.drain(2);
    assert_eq!(it.next(), Some(1));
    assert_eq!(it.next(), Some(2));
    assert_eq!(it.next(), None);
    assert_eq!(l.len(), 1);
    l.clear();
    assert!(l.is_empty());
}

#[test]
fn quartering_policy_amounts() {
    let q = Quartering;
    assert_eq!(q.refill_amount(16, 0), 4);
    assert_eq!(q.refill_amount(2, 0), 1);
    assert_eq!(q.drain_amount(16, 2), 2);
    assert_eq!(q.drain_amount(16, 10), 4);
    assert_eq!(q.increase_target(16), 64);
    assert_eq!(q.decrease_target(16), 4);
}

#[test]
fn greedy_policy_amounts() {
    let g = Greedy;
    assert_eq!(g.refill_amount(8, 3), 5);
    assert_eq!(g.refill_amount(8, 9), 0);
    assert_eq!(g.drain_amount(8, 16), 0);
    assert_eq!(g.drain_amount(8, 17), 8);
    assert_eq!(g.increase_target(8), 8);
    assert_eq!(g.decrease_target(8), 8);
}

#[test]
fn hart_cache_is_lifo_with_target() {
    let mut c: HartCache<usize, Quartering> = HartCache::new(2, Quartering);
    assert!(c.is_empty());
    c.push(7);
    c.push(8);
    assert!(c.is_full());
    assert_eq!(c.target_size(), 2);
    assert_eq!(c.pop(), Some(8));
    assert_eq!(c.len(), 1);
    c.grow();
    assert_eq!(c.target_size(), 8);
    c.shrink();
    assert_eq!(c.target_size(), 2);
    let mut it = c.drain();
    assert_eq!(it.next(), None); // quarter of 2 is 0
    assert_eq!(c.pop(), Some(7));
}

#[test]
fn frame_state_machine() {
    let mut f = Frame::new();
    assert!(f.is_free());
    assert_eq!(f.order(), 0);
    f.set_order(3);
    assert_eq!(f.size(), 8 * BASE_SIZE);
    f.set_state(State::Allocated);
    assert!(!f.is_free());
    f.convert_to_slab(32, vec![100, 200]);
    assert!(matches!(f.state(), State::Slab(_)));
    assert_eq!(f.slab_pop_slot(), Some(200));
    assert_eq!(f.slab_info().in_use_count, 1);
    f.slab_push_slot(200);
    assert_eq!(f.slab_info().in_use_count, 0);
    f.free_to_buddy();
    assert!(f.is_free());
}

#[test]
fn spinlock_hands_the_value_through_a_guard() {
    let mut l = Spinlock::new(41usize);
    let mut g = l.lock();
    assert!(l.try_lock().is_none());
    g.value += 1;
    l.unlock(g);
    let g2 = l.try_lock().expect("free again");
    assert_eq!(g2.value, 42);
    l.unlock(g2);
}

#[test]
fn once_lock_publishes_exactly_once() {
    let mut c: OnceLock<u32> = OnceLock::new();
    assert!(!c.is_initialized());
    assert_eq!(c.get(), None);
    assert_eq!(c.set(5), Ok(()));
    assert_eq!(c.get(), Some(&5));
    assert_eq!(c.set(6), Err(6));
    assert_eq!(c.get(), Some(&5));
}
