//! Typed physical addresses.

use vstd::prelude::*;

verus! {

/// An address in physical memory, a thin wrapper over a machine word.
///
/// Overflow or underflow in address arithmetic is a programming error, so
/// the arithmetic operations carry preconditions instead of panicking.
#[derive(Clone, Copy, Debug, PartialEq, Eq, Structural)]
pub struct PhysicalAddress(pub usize);

impl PhysicalAddress {
    pub fn new(addr: usize) -> (r: Self)
        ensures
            r.0 == addr,
    {
        PhysicalAddress(addr)
    }

    pub fn as_usize(&self) -> (r: usize)
        ensures
            r == self.0,
    {
        self.0
    }

    /// Byte distance from `other` up to `self`.
    pub fn offset_from(&self, other: Self) -> (r: usize)
        requires
            other.0 <= self.0,
        ensures
            r == self.0 - other.0,
    {
        self.0 - other.0
    }

    /// The address `bytes` past `self`.
    pub fn offset(self, bytes: usize) -> (r: Self)
        requires
            self.0 + bytes <= usize::MAX,
        ensures
            r.0 == self.0 + bytes,
    {
        PhysicalAddress(self.0 + bytes)
    }
}

} // verus!
