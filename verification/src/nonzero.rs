//! Values that are known not to be zero.
use vstd::prelude::*;

verus! {

/// A type that has a zero.
pub trait Zeroable: Sized {
    /// Whether the value is the zero of its type.
    spec fn is_zero(&self) -> bool;
}

impl Zeroable for usize {
    open spec fn is_zero(&self) -> bool {
        *self == 0
    }
}

impl Zeroable for u64 {
    open spec fn is_zero(&self) -> bool {
        *self == 0
    }
}

impl Zeroable for u32 {
    open spec fn is_zero(&self) -> bool {
        *self == 0
    }
}

impl Zeroable for isize {
    open spec fn is_zero(&self) -> bool {
        *self == 0
    }
}

/// A wrapper for a value that is never zero.
#[derive(Clone, Copy, Debug)]
pub struct NonZero<T: Zeroable>(T);

impl<T: Zeroable> NonZero<T> {
    /// The value inside.
    pub closed spec fn inner(&self) -> T {
        self.0
    }

    /// The value inside is not zero.
    pub open spec fn wf(&self) -> bool {
        !self.inner().is_zero()
    }

    /// Wraps a value that is not zero.
    pub fn new_unchecked(inner: T) -> (r: Self)
        requires
            !inner.is_zero(),
        ensures
            r.inner() == inner,
            r.wf(),
    {
        NonZero(inner)
    }

    /// Gets the inner value.
    pub fn get(self) -> (r: T)
        ensures
            r == self.inner(),
            self.wf() ==> !r.is_zero(),
    {
        self.0
    }
}

} // verus!
