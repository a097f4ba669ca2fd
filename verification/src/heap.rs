//! How much to ask the allocator for when a block of bytes is wanted.
use crate::memory::CollectionAllocErr;
use vstd::layout::{align_of, size_of};
use vstd::prelude::*;

verus! {

/// Which of the two element types a block is made of.
#[derive(Clone, Copy, Debug, PartialEq, Eq, Structural)]
pub enum Element {
    First,
    Second,
}

/// The vector to reserve for a block of bytes: its element type and its capacity.
#[derive(Clone, Copy, Debug, PartialEq, Eq, Structural)]
pub struct Request {
    pub element: Element,
    pub capacity: usize,
}

/// The number of elements of `element_size` bytes that hold `size` bytes: `size`
/// divided by `element_size`, rounded up.
pub fn capacity(size: usize, element_size: usize) -> (c: usize)
    requires
        element_size > 0,
        size + element_size - 1 <= usize::MAX,
    ensures
        c == (size + element_size - 1) / (element_size as int),
        c * element_size >= size,
{
    let c = (size + (element_size - 1)) / element_size;
    proof {
        let x = (size + element_size - 1) as int;
        let d = element_size as int;
        vstd::arithmetic::div_mod::lemma_fundamental_div_mod(x, d);
        vstd::arithmetic::div_mod::lemma_mod_bound(x, d);
        assert(c * d == d * (x / d)) by (nonlinear_arith)
            requires
                c == x / d,
        ;
    }
    c
}

/// The vector of elements of type `T` to reserve for a block of `size` bytes.
pub fn alloc1<T>(size: usize, element: Element) -> (r: Result<Request, CollectionAllocErr>)
    requires
        size_of::<T>() > 0,
        size + size_of::<T>() - 1 <= usize::MAX,
    ensures
        r == Ok::<Request, CollectionAllocErr>(
            Request { element, capacity: ((size + size_of::<T>() - 1) / (size_of::<T>() as int)) as usize },
        ),
{
    let cap = capacity(size, core::mem::size_of::<T>());
    Ok(Request { element, capacity: cap })
}

/// The vector to reserve for a block of `size` bytes aligned to `align`: a vector
/// of `A` if `A` has that alignment, else a vector of `B`, which then must have it.
pub fn allocation<A, B>(size: usize, align: usize) -> (r: Result<Request, CollectionAllocErr>)
    requires
        align == align_of::<A>() || align == align_of::<B>(),
        align == align_of::<A>() ==> size_of::<A>() > 0 && size + size_of::<A>() - 1 <= usize::MAX,
        align != align_of::<A>() ==> size_of::<B>() > 0 && size + size_of::<B>() - 1 <= usize::MAX,
    ensures
        r == Ok::<Request, CollectionAllocErr>(
            if align == align_of::<A>() {
                Request {
                    element: Element::First,
                    capacity: ((size + size_of::<A>() - 1) / (size_of::<A>() as int)) as usize,
                }
            } else {
                Request {
                    element: Element::Second,
                    capacity: ((size + size_of::<B>() - 1) / (size_of::<B>() as int)) as usize,
                }
            },
        ),
{
    if core::mem::align_of::<A>() == align {
        alloc1::<A>(size, Element::First)
    } else {
        alloc1::<B>(size, Element::Second)
    }
}

} // verus!
