//! Integers that cannot be zero.
//!
//! A zero bound has no uniform value and a zero span holds nothing, so both are
//! unrepresentable rather than checked at every use.

use vstd::prelude::*;

verus! {

/// A `u32` that is never zero.
#[derive(Clone, Copy, PartialEq, Eq, PartialOrd, Ord, Hash, Debug, Structural)]
pub struct NonZeroU32 {
    value: u32,
}

impl NonZeroU32 {
    #[verifier::type_invariant]
    spec fn holds(self) -> bool {
        self.value != 0
    }

    /// The integer held.
    pub closed spec fn value(self) -> u32 {
        self.value
    }

    /// Wrap `value`, or return `None` when it is zero.
    #[must_use]
    pub fn new(value: u32) -> (out: Option<Self>)
        ensures
            out is None <==> value == 0,
            out matches Some(wrapped) ==> wrapped.value() == value,
    {
        if value == 0 {
            None
        } else {
            Some(NonZeroU32 { value })
        }
    }

    /// One.
    #[must_use]
    pub fn min() -> (out: Self)
        ensures
            out.value() == 1,
    {
        NonZeroU32 { value: 1 }
    }

    /// The integer held.
    #[must_use]
    pub fn get(self) -> (value: u32)
        ensures
            value == self.value(),
            value != 0,
    {
        proof {
            use_type_invariant(self);
        }
        self.value
    }
}

/// A `usize` that is never zero.
#[derive(Clone, Copy, PartialEq, Eq, PartialOrd, Ord, Hash, Debug, Structural)]
pub struct NonZeroUsize {
    value: usize,
}

impl NonZeroUsize {
    #[verifier::type_invariant]
    spec fn holds(self) -> bool {
        self.value != 0
    }

    /// The integer held.
    pub closed spec fn value(self) -> usize {
        self.value
    }

    /// Wrap `value`, or return `None` when it is zero.
    #[must_use]
    pub fn new(value: usize) -> (out: Option<Self>)
        ensures
            out is None <==> value == 0,
            out matches Some(wrapped) ==> wrapped.value() == value,
    {
        if value == 0 {
            None
        } else {
            Some(NonZeroUsize { value })
        }
    }

    /// One.
    #[must_use]
    pub fn min() -> (out: Self)
        ensures
            out.value() == 1,
    {
        NonZeroUsize { value: 1 }
    }

    /// The integer held.
    #[must_use]
    pub fn get(self) -> (value: usize)
        ensures
            value == self.value(),
            value != 0,
    {
        proof {
            use_type_invariant(self);
        }
        self.value
    }
}

} // verus!
