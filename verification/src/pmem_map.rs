//! The physical memory map.
//!
//! At boot the map partitions discovered RAM into four contiguous regions:
//! the kernel image, the frame pool (one descriptor per base page of RAM),
//! the frame allocator's metadata (one free-list head per order), and the
//! free pool that the allocators hand out. The map is computed once and
//! provides the O(1) translations between physical addresses and frame
//! indices that both allocators rely on.

use vstd::prelude::*;

verus! {

use crate::address::PhysicalAddress;
use crate::arith::{spec_log2_floor, log2_floor};
use crate::frame::BASE_SIZE;
use vstd::arithmetic::div_mod::{
    lemma_fundamental_div_mod, lemma_mod_multiples_basic,
};
use vstd::arithmetic::power2::pow2;

/// Bytes reserved in the frame pool for one frame descriptor.
pub const FRAME_DESCRIPTOR_SIZE: usize = 64;

/// Bytes reserved in the allocator metadata region for one free-list head.
pub const FREE_LIST_HEAD_SIZE: usize = 24;

/// `x` rounded up to the next multiple of `a`.
pub open spec fn spec_align_up(x: int, a: int) -> int {
    ((x + a - 1) / a) * a
}

/// Rounds `addr` up to the next multiple of `align`.
pub fn align_up(addr: usize, align: usize) -> (r: usize)
    requires
        1 <= align,
        addr + align - 1 <= usize::MAX,
    ensures
        r == spec_align_up(addr as int, align as int),
        addr <= r < addr + align,
        r % align == 0,
{
    let x = addr + (align - 1);
    let q = x / align;
    proof {
        lemma_fundamental_div_mod(x as int, align as int);
        lemma_mod_multiples_basic(q as int, align as int);
        assert((align as int) * (q as int) == (q as int) * (align as int));
    }
    q * align
}

/// A contiguous span of physical memory.
#[derive(Debug, Clone, Copy, PartialEq, Eq, Structural)]
pub struct MemoryRegion {
    pub start: PhysicalAddress,
    pub size: usize,
}

impl MemoryRegion {
    /// One-past-the-end address, as an integer.
    pub open spec fn spec_end(&self) -> int {
        self.start.0 + self.size
    }

    /// Whether address `a` falls inside the region.
    pub open spec fn spec_contains(&self, a: int) -> bool {
        self.start.0 <= a < self.spec_end()
    }

    /// The region's end is representable.
    pub open spec fn wf(&self) -> bool {
        self.start.0 + self.size <= usize::MAX
    }

    pub fn new(start: PhysicalAddress, size: usize) -> (r: Self)
        ensures
            r.start == start,
            r.size == size,
    {
        MemoryRegion { start, size }
    }

    pub fn start(&self) -> (r: PhysicalAddress)
        ensures
            r == self.start,
    {
        self.start
    }

    pub fn size(&self) -> (r: usize)
        ensures
            r == self.size,
    {
        self.size
    }

    pub fn end(&self) -> (r: PhysicalAddress)
        requires
            self.wf(),
        ensures
            r.0 == self.spec_end(),
    {
        self.start.offset(self.size)
    }

    pub fn contains(&self, address: PhysicalAddress) -> (r: bool)
        requires
            self.wf(),
        ensures
            r == self.spec_contains(address.0 as int),
    {
        address.as_usize() >= self.start.as_usize()
            && address.as_usize() < self.start.as_usize() + self.size
    }
}

/// Number of base pages described by `ram_size` bytes.
pub open spec fn spec_num_frames(ram_size: int) -> int {
    ram_size / (BASE_SIZE as int)
}

/// Number of buddy orders for a RAM of `num_frames` pages.
pub open spec fn spec_orders(num_frames: nat) -> nat {
    spec_log2_floor(num_frames) + 1
}

/// Size of the kernel region for the given image bounds.
pub open spec fn spec_kernel_size(kernel_start: int, kernel_end: int) -> int {
    spec_align_up(kernel_end - kernel_start, BASE_SIZE as int)
}

/// Size of the frame pool region for `ram_size` bytes of RAM.
pub open spec fn spec_frame_pool_size(ram_size: int) -> int {
    spec_align_up(spec_num_frames(ram_size) * (FRAME_DESCRIPTOR_SIZE as int), BASE_SIZE as int)
}

/// Size of the allocator metadata region for `ram_size` bytes of RAM.
pub open spec fn spec_metadata_size(ram_size: int) -> int {
    spec_align_up(
        spec_orders(spec_num_frames(ram_size) as nat) * (FREE_LIST_HEAD_SIZE as int),
        BASE_SIZE as int,
    )
}

/// The five fixed regions computed at boot.
#[derive(Debug, Clone, Copy, PartialEq, Eq, Structural)]
pub struct PhysicalMemoryMap {
    /// The total available physical RAM discovered from the hardware.
    pub ram: MemoryRegion,
    /// The region occupied by the kernel's binary.
    pub kernel: MemoryRegion,
    /// The region holding the `Frame` descriptor array.
    pub frame_pool: MemoryRegion,
    /// The region holding the allocator's free-list heads.
    pub frame_allocator_metadata: MemoryRegion,
    /// The first page available for general-purpose allocation onwards.
    pub free_memory: MemoryRegion,
}

impl PhysicalMemoryMap {
    /// The regions are page-sized, contiguous in order, and inside RAM,
    /// with the free pool running to the end of RAM.
    pub open spec fn wf(&self) -> bool {
        &&& self.ram.wf()
        &&& self.ram.start.0 % BASE_SIZE == 0
        &&& self.ram.size % BASE_SIZE == 0
        &&& self.ram.size > 0
        &&& self.kernel.start.0 % BASE_SIZE == 0
        &&& self.ram.start.0 <= self.kernel.start.0
        &&& self.kernel.size % BASE_SIZE == 0
        &&& self.frame_pool.start.0 == self.kernel.spec_end()
        &&& self.frame_pool.size % BASE_SIZE == 0
        &&& self.frame_allocator_metadata.start.0 == self.frame_pool.spec_end()
        &&& self.frame_allocator_metadata.size % BASE_SIZE == 0
        &&& self.free_memory.start.0 == self.frame_allocator_metadata.spec_end()
        &&& self.free_memory.size % BASE_SIZE == 0
        &&& self.free_memory.spec_end() == self.ram.spec_end()
        &&& self.free_memory.size > 0
    }

    /// Lays the regions out from the RAM bounds and the kernel image
    /// symbols handed in by boot code. Inputs that leave no room for the
    /// metadata or the free pool are rejected up front: there is no
    /// fallback layout.
    pub fn calculate(
        ram_start: PhysicalAddress,
        ram_size: usize,
        kernel_start: PhysicalAddress,
        kernel_end: PhysicalAddress,
    ) -> (r: Self)
        requires
            ram_size % BASE_SIZE == 0,
            ram_size >= BASE_SIZE,
            ram_size + BASE_SIZE <= usize::MAX,
            ram_start.0 + ram_size <= usize::MAX,
            ram_start.0 % BASE_SIZE == 0,
            kernel_start.0 % BASE_SIZE == 0,
            ram_start.0 <= kernel_start.0 <= kernel_end.0,
            kernel_end.0 <= ram_start.0 + ram_size,
            kernel_start.0 + spec_kernel_size(kernel_start.0 as int, kernel_end.0 as int)
                + spec_frame_pool_size(ram_size as int) + spec_metadata_size(ram_size as int)
                < ram_start.0 + ram_size,
        ensures
            r.ram.start == ram_start,
            r.ram.size == ram_size,
            r.kernel.start == kernel_start,
            r.kernel.size == spec_kernel_size(kernel_start.0 as int, kernel_end.0 as int),
            r.frame_pool.size == spec_frame_pool_size(ram_size as int),
            r.frame_allocator_metadata.size == spec_metadata_size(ram_size as int),
            r.free_memory.start.0 == kernel_start.0 + r.kernel.size + r.frame_pool.size
                + r.frame_allocator_metadata.size,
            r.free_memory.spec_end() == ram_start.0 + ram_size,
            r.wf(),
    {
        let ram = MemoryRegion::new(ram_start, ram_size);

        let kernel_region = Self::init_kernel_region(&ram, kernel_start, kernel_end);

        let frame_pool_region = Self::init_frame_pool_region(&ram, kernel_region.end());

        let allocator_metadata_region =
            Self::init_allocator_metadata_region(&ram, frame_pool_region.end());

        let free_memory_region =
            Self::init_free_memory_region(&ram, allocator_metadata_region.end());

        let r = PhysicalMemoryMap {
            ram,
            kernel: kernel_region,
            frame_pool: frame_pool_region,
            frame_allocator_metadata: allocator_metadata_region,
            free_memory: free_memory_region,
        };
        proof {
            let b = BASE_SIZE as int;
            let md_end = r.free_memory.start.0 as int;
            assert(md_end % b == 0);
            assert((ram_start.0 + ram_size) % b == 0) by {
                vstd::arithmetic::div_mod::lemma_add_mod_noop(
                    ram_start.0 as int,
                    ram_size as int,
                    b,
                );
            }
            crate::arith::lemma_mod_diff_zero(ram_start.0 + ram_size, md_end, b);
        }
        r
    }

    fn init_kernel_region(ram: &MemoryRegion, kernel_start: PhysicalAddress, kernel_end: PhysicalAddress) -> (r: MemoryRegion)
        requires
            ram.wf(),
            ram.size + BASE_SIZE <= usize::MAX,
            ram.start.0 <= kernel_start.0 <= kernel_end.0,
            kernel_end.0 <= ram.spec_end(),
        ensures
            r.start == kernel_start,
            r.size == spec_kernel_size(kernel_start.0 as int, kernel_end.0 as int),
            r.size % BASE_SIZE == 0,
    {
        let kernel_size = align_up(kernel_end.as_usize() - kernel_start.as_usize(), BASE_SIZE);
        MemoryRegion::new(kernel_start, kernel_size)
    }

    fn init_frame_pool_region(ram: &MemoryRegion, kernel_region_end: PhysicalAddress) -> (r: MemoryRegion)
        requires
            ram.wf(),
            ram.size + BASE_SIZE <= usize::MAX,
            ram.size % BASE_SIZE == 0,
            ram.size >= BASE_SIZE,
        ensures
            r.start == kernel_region_end,
            r.size == spec_frame_pool_size(ram.size as int),
            r.size % BASE_SIZE == 0,
    {
        let num_frames = ram.size() / BASE_SIZE;
        proof {
            lemma_fundamental_div_mod(ram.size as int, BASE_SIZE as int);
            assert((ram.size as int / (BASE_SIZE as int)) * (FRAME_DESCRIPTOR_SIZE as int)
                <= (ram.size as int / (BASE_SIZE as int)) * (BASE_SIZE as int))
                by (nonlinear_arith)
                requires ram.size as int / (BASE_SIZE as int) >= 0,
            ;
        }
        let frame_pool_size = align_up(num_frames * FRAME_DESCRIPTOR_SIZE, BASE_SIZE);
        MemoryRegion::new(kernel_region_end, frame_pool_size)
    }

    fn init_allocator_metadata_region(ram: &MemoryRegion, frame_pool_end: PhysicalAddress) -> (r: MemoryRegion)
        requires
            ram.wf(),
            ram.size % BASE_SIZE == 0,
            ram.size >= BASE_SIZE,
        ensures
            r.start == frame_pool_end,
            r.size == spec_metadata_size(ram.size as int),
            r.size % BASE_SIZE == 0,
    {
        let num_frames = ram.size() / BASE_SIZE;
        assert(num_frames >= 1) by {
            lemma_fundamental_div_mod(ram.size as int, BASE_SIZE as int);
        };
        proof {
            vstd::layout::unsigned_int_max_values();
            vstd::arithmetic::power2::lemma2_to64();
            vstd::arithmetic::power2::lemma2_to64_rest();
            assert(usize::BITS == 32 || usize::BITS == 64);
            if usize::BITS == 32 {
                assert((usize::MAX as nat) == pow2(32) - 1);
            } else {
                assert((usize::MAX as nat) == pow2(64) - 1);
            }
            vstd::arithmetic::power2::lemma_pow2_strictly_increases(32, 64);
            assert((num_frames as nat) < pow2(64));
        }
        let allocator_num_orders = log2_floor(num_frames) as usize + 1;
        let allocator_metadata_size = align_up(allocator_num_orders * FREE_LIST_HEAD_SIZE, BASE_SIZE);
        MemoryRegion::new(frame_pool_end, allocator_metadata_size)
    }

    fn init_free_memory_region(ram: &MemoryRegion, allocator_metadata_end: PhysicalAddress) -> (r: MemoryRegion)
        requires
            ram.wf(),
            allocator_metadata_end.0 <= ram.spec_end(),
        ensures
            r.start == allocator_metadata_end,
            r.size == ram.spec_end() - allocator_metadata_end.0,
    {
        let free_memory_size = ram.end().offset_from(allocator_metadata_end);
        MemoryRegion::new(allocator_metadata_end, free_memory_size)
    }

    /// Number of base pages that the RAM holds.
    pub fn num_frames(&self) -> (r: usize)
        requires
            self.ram.wf(),
        ensures
            r == spec_num_frames(self.ram.size as int),
    {
        self.ram.size() / BASE_SIZE
    }

    /// The frame-pool index of the page containing `address`.
    pub fn frame_idx_from_address(&self, address: PhysicalAddress) -> (r: usize)
        requires
            self.ram.wf(),
            self.ram.size % BASE_SIZE == 0,
            self.ram.spec_contains(address.0 as int),
        ensures
            r == (address.0 - self.ram.start.0) / (BASE_SIZE as int),
            r < spec_num_frames(self.ram.size as int),
    {
        let r = address.offset_from(self.ram.start()) / BASE_SIZE;
        proof {
            let off = address.0 - self.ram.start.0;
            vstd::arithmetic::div_mod::lemma_div_is_ordered(
                off,
                self.ram.size as int,
                BASE_SIZE as int,
            );
            if off / (BASE_SIZE as int) == spec_num_frames(self.ram.size as int) {
                lemma_fundamental_div_mod(off, BASE_SIZE as int);
                lemma_fundamental_div_mod(self.ram.size as int, BASE_SIZE as int);
            }
        }
        r
    }

    /// The base address of the page that frame `frame_idx` describes.
    ///
    /// Frames are referred to by their index in the frame pool.
    pub fn frame_ref_to_address(&self, frame_idx: usize) -> (r: PhysicalAddress)
        requires
            self.ram.wf(),
            self.ram.size % BASE_SIZE == 0,
            frame_idx < spec_num_frames(self.ram.size as int),
        ensures
            r.0 == self.ram.start.0 + frame_idx * BASE_SIZE,
            self.ram.spec_contains(r.0 as int),
    {
        proof {
            lemma_fundamental_div_mod(self.ram.size as int, BASE_SIZE as int);
            assert((frame_idx as int) * (BASE_SIZE as int)
                < spec_num_frames(self.ram.size as int) * (BASE_SIZE as int))
                by (nonlinear_arith)
                requires (frame_idx as int) < spec_num_frames(self.ram.size as int),
            ;
        }
        self.ram.start().offset(frame_idx * BASE_SIZE)
    }
}

} // verus!
