//! Physical memory allocator core for a freestanding RISC-V-class kernel.
//!
//! The crate models the memory substrate of a many-core kernel: a physical
//! memory map that partitions discovered RAM into kernel image, per-frame
//! metadata, allocator metadata and a free pool; a buddy frame allocator
//! that manages the free pool in power-of-two blocks of base pages with
//! per-hart caches for single-page allocations; and a SLUB-style slab
//! allocator that subdivides buddy-sourced pages into fixed-size slots.
//!
//! Frames are described by an array of descriptors indexed by page number,
//! and blocks are handed around as frame indices; the buddy of a block of
//! order `k` at address `a` lives at `a ^ (2^k * BASE_SIZE)`.
//!
//! In the kernel the allocator state sits behind spinlocks and per-hart
//! cells; here every operation takes the allocator by `&mut`, which encodes
//! the exclusive access that those locks provide at run time, and the
//! executing hart's id is passed in by the caller.

pub mod address;
pub mod arith;
pub mod frame;
pub mod frame_allocator;
pub mod free_lists;
pub mod hart_cache;
pub mod intrusive_list;
pub mod once_lock;
pub mod pmem_map;
pub mod singly_linked_list;
pub mod slub;
pub mod spinlock;
