//! A signed step over an unsigned domain.
//!
//! Unsigned coordinates cannot hold a negative increment, so a step is kept as
//! a magnitude together with the direction in which it is applied.

use core::ops::{AddAssign, Sub};
use vstd::prelude::*;
use vstd::std_specs::cmp::{PartialOrdIs, PartialOrdSpec};

verus! {

/// A step of a given magnitude that either adds to or subtracts from a value.
#[derive(Copy, Clone)]
pub enum Delta<T> {
    Add(T),
    Sub(T),
}

impl<T: Ord + Sub<Output = T>> Delta<T> {
    /// The step that leads from `from` toward `to`: adding when `to` is the
    /// greater of the two, subtracting otherwise (also when they are equal).
    pub open spec fn toward(from: T, to: T, magnitude: T) -> Delta<T> {
        if to.is_gt(&from) {
            Delta::Add(magnitude)
        } else {
            Delta::Sub(magnitude)
        }
    }

    /// Builds the step of size `magnitude` that moves `from` toward `to`.
    pub fn new(from: T, to: T, magnitude: T) -> (step: Delta<T>)
        ensures
            T::obeys_partial_cmp_spec() ==> step == Self::toward(from, to, magnitude),
            step == Delta::Add(magnitude) || step == Delta::Sub(magnitude),
    {
        if to > from {
            Delta::Add(magnitude)
        } else {
            Delta::Sub(magnitude)
        }
    }
}

impl AddAssign<Delta<usize>> for usize {
    /// Moves the value by one step. The step must not leave the type's range.
    fn add_assign(&mut self, rhs: Delta<usize>)
        requires
            match rhs {
                Delta::Add(amt) => *old(self) + amt <= usize::MAX,
                Delta::Sub(amt) => amt <= *old(self),
            },
        ensures
            match rhs {
                Delta::Add(amt) => *final(self) == *old(self) + amt,
                Delta::Sub(amt) => *final(self) == *old(self) - amt,
            },
    {
        match rhs {
            Delta::Add(amt) => *self += amt,
            Delta::Sub(amt) => *self -= amt,
        }
    }
}

impl AddAssign<Delta<u64>> for u64 {
    /// Moves the value by one step. The step must not leave the type's range.
    fn add_assign(&mut self, rhs: Delta<u64>)
        requires
            match rhs {
                Delta::Add(amt) => *old(self) + amt <= u64::MAX,
                Delta::Sub(amt) => amt <= *old(self),
            },
        ensures
            match rhs {
                Delta::Add(amt) => *final(self) == *old(self) + amt,
                Delta::Sub(amt) => *final(self) == *old(self) - amt,
            },
    {
        match rhs {
            Delta::Add(amt) => *self += amt,
            Delta::Sub(amt) => *self -= amt,
        }
    }
}

impl AddAssign<Delta<u32>> for u32 {
    /// Moves the value by one step. The step must not leave the type's range.
    fn add_assign(&mut self, rhs: Delta<u32>)
        requires
            match rhs {
                Delta::Add(amt) => *old(self) + amt <= u32::MAX,
                Delta::Sub(amt) => amt <= *old(self),
            },
        ensures
            match rhs {
                Delta::Add(amt) => *final(self) == *old(self) + amt,
                Delta::Sub(amt) => *final(self) == *old(self) - amt,
            },
    {
        match rhs {
            Delta::Add(amt) => *self += amt,
            Delta::Sub(amt) => *self -= amt,
        }
    }
}

impl AddAssign<Delta<u16>> for u16 {
    /// Moves the value by one step. The step must not leave the type's range.
    fn add_assign(&mut self, rhs: Delta<u16>)
        requires
            match rhs {
                Delta::Add(amt) => *old(self) + amt <= u16::MAX,
                Delta::Sub(amt) => amt <= *old(self),
            },
        ensures
            match rhs {
                Delta::Add(amt) => *final(self) == *old(self) + amt,
                Delta::Sub(amt) => *final(self) == *old(self) - amt,
            },
    {
        match rhs {
            Delta::Add(amt) => *self += amt,
            Delta::Sub(amt) => *self -= amt,
        }
    }
}

impl AddAssign<Delta<u8>> for u8 {
    /// Moves the value by one step. The step must not leave the type's range.
    fn add_assign(&mut self, rhs: Delta<u8>)
        requires
            match rhs {
                Delta::Add(amt) => *old(self) + amt <= u8::MAX,
                Delta::Sub(amt) => amt <= *old(self),
            },
        ensures
            match rhs {
                Delta::Add(amt) => *final(self) == *old(self) + amt,
                Delta::Sub(amt) => *final(self) == *old(self) - amt,
            },
    {
        match rhs {
            Delta::Add(amt) => *self += amt,
            Delta::Sub(amt) => *self -= amt,
        }
    }
}

} // verus!
