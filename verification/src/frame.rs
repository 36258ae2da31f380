//! Per-page frame descriptors.
//!
//! Every base page of RAM is described by one [`Frame`]. A frame records the
//! buddy order of the block it heads and a discriminated state: free,
//! allocated, or serving as a slab. The slab payload lives inside the state
//! variant, so the two disjoint sets of invariants (free-buddy vs. slab)
//! can never be read through the wrong lens.

use vstd::prelude::*;

verus! {

use vstd::arithmetic::power2::pow2;

/// Size of one base page in bytes.
pub const BASE_SIZE: usize = 4096;

/// Slab bookkeeping for a frame whose page has been cut into slots.
///
/// The free slots form a stack of slot addresses; the next slot to hand out
/// is the last element. In the kernel this chain is threaded through the
/// first word of each free slot inside the page itself.
#[derive(Debug, Clone, PartialEq)]
pub struct SlabInfo {
    /// Object size of the owning size class.
    pub cache: usize,
    /// Addresses of the slots that are currently free.
    pub free_slots: Vec<usize>,
    /// Number of slots handed out (to hart caches or to users).
    pub in_use_count: usize,
}

/// The life-cycle state of a frame, with the slab payload in its variant.
#[derive(Debug, Clone, PartialEq)]
pub enum State {
    Free,
    Allocated,
    Slab(SlabInfo),
}

/// Descriptor for one base page.
#[derive(Debug, Clone, PartialEq)]
pub struct Frame {
    pub state: State,
    pub order: u8,
}

impl Frame {
    /// A fresh descriptor: free, order 0.
    pub fn new() -> (r: Self)
        ensures
            r.state is Free,
            r.order == 0,
    {
        Frame { state: State::Free, order: 0 }
    }

    pub fn order(&self) -> (r: u8)
        ensures
            r == self.order,
    {
        self.order
    }

    pub fn set_order(&mut self, order: u8)
        ensures
            final(self).order == order,
            final(self).state == old(self).state,
    {
        self.order = order;
    }

    pub fn state(&self) -> (r: &State)
        ensures
            *r == self.state,
    {
        &self.state
    }

    pub fn set_state(&mut self, state: State)
        ensures
            final(self).state == state,
            final(self).order == old(self).order,
    {
        self.state = state;
    }

    pub fn is_free(&self) -> (r: bool)
        ensures
            r == (self.state is Free),
    {
        match self.state {
            State::Free => true,
            _ => false,
        }
    }

    /// Size in bytes of the block this frame heads.
    pub fn size(&self) -> (r: usize)
        requires
            pow2(self.order as nat) * BASE_SIZE <= usize::MAX,
    ensures
            r == pow2(self.order as nat) * BASE_SIZE,
    {
        proof {
            vstd::arithmetic::power2::lemma_pow2_pos(self.order as nat);
        }
        crate::arith::pow2_usize(self.order) * BASE_SIZE
    }

    /// Turns a free or allocated frame into a slab head over the given slots.
    pub fn convert_to_slab(&mut self, cache: usize, free_slots: Vec<usize>)
        ensures
            final(self).state == State::Slab(SlabInfo { cache, free_slots: free_slots, in_use_count: 0 }),
            final(self).order == old(self).order,
    {
        self.state = State::Slab(SlabInfo { cache, free_slots, in_use_count: 0 });
    }

    /// Retires a slab frame: its page goes back to the buddy allocator.
    pub fn free_to_buddy(&mut self)
        requires
            old(self).state is Slab,
        ensures
            final(self).state is Free,
            final(self).order == old(self).order,
    {
        self.state = State::Free;
    }

    /// Read access to the slab payload.
    pub fn slab_info(&self) -> (r: &SlabInfo)
        requires
            self.state is Slab,
        ensures
            *r == self.state->Slab_0,
    {
        match &self.state {
            State::Slab(info) => info,
            _ => vstd::pervasive::unreached(),
        }
    }

    /// Takes the next free slot out of a slab frame and counts it in use.
    pub fn slab_pop_slot(&mut self) -> (r: Option<usize>)
        requires
            old(self).state is Slab,
            old(self).state->Slab_0.in_use_count < usize::MAX,
        ensures
            final(self).state is Slab,
            final(self).order == old(self).order,
            final(self).state->Slab_0.cache == old(self).state->Slab_0.cache,
            old(self).state->Slab_0.free_slots@.len() == 0 ==> r is None
                && *final(self) == *old(self),
            old(self).state->Slab_0.free_slots@.len() > 0 ==> {
                &&& r == Some(old(self).state->Slab_0.free_slots@.last())
                &&& final(self).state->Slab_0.free_slots@
                    == old(self).state->Slab_0.free_slots@.drop_last()
                &&& final(self).state->Slab_0.in_use_count
                    == old(self).state->Slab_0.in_use_count + 1
            },
    {
        match &mut self.state {
            State::Slab(info) => {
                if info.free_slots.len() == 0 {
                    None
                } else {
                    let taken = info.free_slots.pop();
                    info.in_use_count = info.in_use_count + 1;
                    taken
                }
            },
            _ => vstd::pervasive::unreached(),
        }
    }

    /// Returns a slot to a slab frame's free stack.
    pub fn slab_push_slot(&mut self, slot: usize)
        requires
            old(self).state is Slab,
            old(self).state->Slab_0.in_use_count >= 1,
            old(self).state->Slab_0.free_slots@.len() < usize::MAX,
        ensures
            final(self).state is Slab,
            final(self).order == old(self).order,
            final(self).state->Slab_0.cache == old(self).state->Slab_0.cache,
            final(self).state->Slab_0.free_slots@
                == old(self).state->Slab_0.free_slots@.push(slot),
            final(self).state->Slab_0.in_use_count
                == old(self).state->Slab_0.in_use_count - 1,
    {
        match &mut self.state {
            State::Slab(info) => {
                info.free_slots.push(slot);
                info.in_use_count = info.in_use_count - 1;
            },
            _ => vstd::pervasive::unreached(),
        }
    }
}

} // verus!
