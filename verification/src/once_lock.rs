//! One-shot publication cell.
//!
//! `set` succeeds for exactly one caller; everyone else gets their value
//! handed back. In the kernel the publication is lock-free and readers
//! spin on an acquire-ordered ready flag; here the cell is modelled by
//! its published value, and `&mut` access encodes the exclusivity that
//! the compare-and-swap provides at run time.

use vstd::prelude::*;

verus! {

/// A cell that can be written exactly once.
#[derive(Debug)]
pub struct OnceLock<T> {
    pub value: Option<T>,
}

impl<T> OnceLock<T> {
    /// Whether a value has been published.
    pub open spec fn spec_is_init(&self) -> bool {
        self.value is Some
    }

    /// The published value.
    pub open spec fn spec_value(&self) -> T {
        self.value->0
    }

    pub fn new() -> (r: Self)
        ensures
            !r.spec_is_init(),
    {
        OnceLock { value: None }
    }

    pub fn is_initialized(&self) -> (r: bool)
        ensures
            r == self.spec_is_init(),
    {
        match &self.value {
            Some(_) => true,
            None => false,
        }
    }

    /// The published value, if any.
    pub fn get(&self) -> (r: Option<&T>)
        ensures
            self.spec_is_init() ==> r == Some(&self.spec_value()),
            !self.spec_is_init() ==> r is None,
    {
        match &self.value {
            Some(v) => Some(v),
            None => None,
        }
    }

    /// Publishes `value`; exactly the first caller succeeds, later
    /// callers get their value back unchanged.
    pub fn set(&mut self, value: T) -> (r: Result<(), T>)
        ensures
            !old(self).spec_is_init() ==> r is Ok && final(self).spec_is_init()
                && final(self).spec_value() == value,
            old(self).spec_is_init() ==> r == Err::<(), T>(value)
                && *final(self) == *old(self),
    {
        match &self.value {
            Some(_) => Err(value),
            None => {
                self.value = Some(value);
                Ok(())
            },
        }
    }
}

} // verus!
