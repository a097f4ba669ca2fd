//! Layouts of blocks of memory, and what can go wrong when a collection asks for
//! memory.
use vstd::arithmetic::power2::is_pow2;
use vstd::layout::{align_of, size_of, valid_layout};
use vstd::prelude::*;
use vstd::std_specs::convert::FromSpecImpl;

verus! {

/// A size or an alignment that no block of memory can have.
#[derive(Clone, Copy, Debug, PartialEq, Eq, Structural)]
pub struct LayoutErr {}

/// Layout of a block of memory: its size in bytes and the alignment of its address.
#[derive(Clone, Copy, Debug, PartialEq, Eq, Structural)]
pub struct Layout {
    size: usize,
    align: usize,
}

/// Why a collection could not get the memory it asked for.
#[derive(Clone, Copy, Debug, PartialEq, Eq, Structural)]
pub enum CollectionAllocErr {
    /// The computed capacity exceeds what a collection can have.
    CapacityOverflow,
    /// The allocator would not give the memory.
    AllocErr,
}

impl From<LayoutErr> for CollectionAllocErr {
    fn from(e: LayoutErr) -> (r: Self) {
        CollectionAllocErr::CapacityOverflow
    }
}

impl FromSpecImpl<LayoutErr> for CollectionAllocErr {
    open spec fn obeys_from_spec() -> bool {
        true
    }

    open spec fn from_spec(e: LayoutErr) -> Self {
        CollectionAllocErr::CapacityOverflow
    }
}

/// The padding after `size` bytes that brings the next address to a multiple of
/// `align`, computed as the machine does: `size + align - 1` with the low bits
/// cleared, less `size`, all in wrapping arithmetic.
pub open spec fn padding_of(size: usize, align: usize) -> usize {
    ((size.wrapping_add(align).wrapping_sub(1)) & !align.wrapping_sub(1)).wrapping_sub(size)
}

/// Clearing the low bits of a number with a power of two less one takes the
/// remainder by the power away.
pub proof fn lemma_clear_low_bits(x: usize, align: usize)
    requires
        is_pow2(align as int),
    ensures
        (x & !((align - 1) as usize)) as int == x as int - (x as int) % (align as int),
    decreases align,
{
    reveal(is_pow2);
    if align == 1 {
        assert(x & !0usize == x) by (bit_vector);
    } else {
        let half = (align / 2) as usize;
        let y = (x / 2) as usize;
        lemma_clear_low_bits(y, half);
        let m = (half - 1) as usize;
        let mm = (align - 1) as usize;
        assert(mm == m * 2 + 1);
        assert(x & !mm == ((y & !m) * 2) as usize) by (bit_vector)
            requires
                y == x / 2,
                mm == m * 2 + 1,
        ;
        let xi = x as int;
        let a = align as int;
        let h = half as int;
        let yi = y as int;
        let q = yi / h;
        let r = yi % h;
        vstd::arithmetic::div_mod::lemma_fundamental_div_mod(xi, 2);
        vstd::arithmetic::div_mod::lemma_fundamental_div_mod(yi, h);
        vstd::arithmetic::div_mod::lemma_mod_bound(yi, h);
        assert(xi == q * a + (r * 2 + xi % 2)) by (nonlinear_arith)
            requires
                xi == 2 * yi + xi % 2,
                yi == h * q + r,
                a == 2 * h,
        ;
        vstd::arithmetic::div_mod::lemma_fundamental_div_mod_converse(xi, a, q, r * 2 + xi % 2);
        assert((y & !m) as int == yi - r);
        assert(((y & !m) * 2) as usize == (yi - r) * 2);
    }
}

/// For an alignment that is a power of two, and where `size + align - 1` fits a
/// `usize`, the padding is less than the alignment and brings the size to a
/// multiple of it.
pub proof fn lemma_padding_rounds_up(size: usize, align: usize)
    requires
        is_pow2(align as int),
        size + align - 1 <= usize::MAX,
    ensures
        padding_of(size, align) < align,
        (size + padding_of(size, align)) % (align as int) == 0,
{
    reveal(is_pow2);
    let x = (size + align - 1) as usize;
    lemma_clear_low_bits(x, align);
    let xi = x as int;
    let a = align as int;
    vstd::arithmetic::div_mod::lemma_fundamental_div_mod(xi, a);
    vstd::arithmetic::div_mod::lemma_mod_bound(xi, a);
    let up = xi - xi % a;
    assert(up == a * (xi / a));
    assert(up % a == 0) by {
        vstd::arithmetic::div_mod::lemma_mod_multiples_basic(xi / a, a);
        assert(a * (xi / a) == (xi / a) * a) by (nonlinear_arith);
    }
    assert(size.wrapping_add(align) == size + align || size + align == usize::MAX + 1);
}

/// Whether `n` is a power of two.
pub fn is_power_of_two(n: usize) -> (b: bool)
    ensures
        b == is_pow2(n as int),
{
    let mut q: usize = n;
    while q > 1 && q % 2 == 0
        invariant
            is_pow2(n as int) == is_pow2(q as int),
        decreases q,
    {
        proof {
            reveal(is_pow2);
        }
        q = q / 2;
    }
    proof {
        reveal(is_pow2);
    }
    q == 1
}

impl Layout {
    /// The size of the block in bytes.
    pub closed spec fn spec_size(&self) -> usize {
        self.size
    }

    /// The alignment of the block in bytes.
    pub closed spec fn spec_align(&self) -> usize {
        self.align
    }

    /// A layout of `size` bytes aligned to `align`, if there can be such a block:
    /// `align` must be a power of two, and `size`, rounded up to a multiple of
    /// `align`, must not exceed the largest `isize`.
    pub fn from_size_align(size: usize, align: usize) -> (r: Result<Layout, LayoutErr>)
        ensures
            r is Ok <==> valid_layout(size, align),
            r is Ok ==> r->Ok_0.spec_size() == size && r->Ok_0.spec_align() == align,
    {
        if !is_power_of_two(align) {
            return Err(LayoutErr {  });
        }
        let most = isize::MAX as usize;
        proof {
            reveal(is_pow2);
            vstd::arithmetic::div_mod::lemma_mod_decreases(most as nat, align as nat);
        }
        if size > most - most % align {
            return Err(LayoutErr {  });
        }
        Ok(Layout { size, align })
    }

    /// A layout of `size` bytes aligned to `align`, whatever they are.
    pub fn from_size_align_unchecked(size: usize, align: usize) -> (r: Layout)
        ensures
            r.spec_size() == size,
            r.spec_align() == align,
    {
        Layout { size, align }
    }

    /// The size of the block in bytes.
    #[verifier::when_used_as_spec(spec_size)]
    pub fn size(&self) -> (s: usize)
        ensures
            s == self.spec_size(),
    {
        self.size
    }

    /// The alignment of the block in bytes.
    #[verifier::when_used_as_spec(spec_align)]
    pub fn align(&self) -> (a: usize)
        ensures
            a == self.spec_align(),
    {
        self.align
    }

    /// The layout of a value of type `T`.
    pub fn new<T>() -> (r: Layout)
        ensures
            r.spec_size() == size_of::<T>(),
            r.spec_align() == align_of::<T>(),
    {
        Layout { size: core::mem::size_of::<T>(), align: core::mem::align_of::<T>() }
    }

    /// The padding to put after the block so that the next address is a multiple
    /// of `align`. It means something only if `align` is a power of two.
    pub fn padding_needed_for(&self, align: usize) -> (p: usize)
        ensures
            p == padding_of(self.spec_size(), align),
            is_pow2(align as int) && self.spec_size() + align - 1 <= usize::MAX ==> p < align && (
            self.spec_size() + p) % (align as int) == 0,
    {
        proof {
            if is_pow2(align as int) && self.spec_size() + align - 1 <= usize::MAX {
                lemma_padding_rounds_up(self.size, align);
            }
        }
        let len = self.size();
        let len_rounded_up = len.wrapping_add(align).wrapping_sub(1) & !align.wrapping_sub(1);
        len_rounded_up.wrapping_sub(len)
    }

    /// The layout of `n` blocks of this layout one after the other, each padded to
    /// its alignment, together with the distance from one block to the next.
    /// Fails if a size does not fit a `usize`.
    pub fn repeat(&self, n: usize) -> (r: Result<(Layout, usize), LayoutErr>)
        ensures
            r is Ok <==> self.spec_size() + padding_of(self.spec_size(), self.spec_align())
                <= usize::MAX && (self.spec_size() + padding_of(
                self.spec_size(),
                self.spec_align(),
            )) * n <= usize::MAX,
            r is Ok ==> r->Ok_0.1 == self.spec_size() + padding_of(
                self.spec_size(),
                self.spec_align(),
            ) && r->Ok_0.0.spec_size() == r->Ok_0.1 * n && r->Ok_0.0.spec_align()
                == self.spec_align(),
    {
        let padded_size = match self.size().checked_add(self.padding_needed_for(self.align())) {
            Some(s) => s,
            None => {
                return Err(LayoutErr {  });
            },
        };
        let alloc_size = match padded_size.checked_mul(n) {
            Some(s) => s,
            None => {
                return Err(LayoutErr {  });
            },
        };
        Ok((Layout::from_size_align_unchecked(alloc_size, self.align()), padded_size))
    }

    /// The layout of this block followed by the block `next`, with the padding in
    /// between that aligns `next`, together with the offset of `next` in it.
    /// Fails if a size does not fit a `usize` or the result can be no block.
    pub fn extend(&self, next: Layout) -> (r: Result<(Layout, usize), LayoutErr>)
        ensures
            r is Ok <==> {
                let offset = self.spec_size() + padding_of(self.spec_size(), next.spec_align());
                &&& offset + next.spec_size() <= usize::MAX
                &&& valid_layout(
                    (offset + next.spec_size()) as usize,
                    if self.spec_align() >= next.spec_align() {
                        self.spec_align()
                    } else {
                        next.spec_align()
                    },
                )
            },
            r is Ok ==> {
                let offset = self.spec_size() + padding_of(self.spec_size(), next.spec_align());
                &&& r->Ok_0.1 == offset
                &&& r->Ok_0.0.spec_size() == offset + next.spec_size()
                &&& r->Ok_0.0.spec_align() == if self.spec_align() >= next.spec_align() {
                    self.spec_align()
                } else {
                    next.spec_align()
                }
            },
    {
        let new_align = if self.align() >= next.align() {
            self.align()
        } else {
            next.align()
        };
        let pad = self.padding_needed_for(next.align());
        let offset = match self.size().checked_add(pad) {
            Some(s) => s,
            None => {
                return Err(LayoutErr {  });
            },
        };
        let new_size = match offset.checked_add(next.size()) {
            Some(s) => s,
            None => {
                return Err(LayoutErr {  });
            },
        };
        match Layout::from_size_align(new_size, new_align) {
            Ok(layout) => Ok((layout, offset)),
            Err(e) => Err(e),
        }
    }

    /// The layout of an array of `n` values of type `T`.
    /// Fails if its size does not fit a `usize`.
    pub fn array<T>(n: usize) -> (r: Result<Layout, LayoutErr>)
        ensures
            r is Ok <==> size_of::<T>() + padding_of(size_of::<T>() as usize, align_of::<T>() as usize)
                <= usize::MAX && (size_of::<T>() + padding_of(
                size_of::<T>() as usize,
                align_of::<T>() as usize,
            )) * n <= usize::MAX,
            r is Ok ==> r->Ok_0.spec_size() == (size_of::<T>() + padding_of(
                size_of::<T>() as usize,
                align_of::<T>() as usize,
            )) * n && r->Ok_0.spec_align() == align_of::<T>(),
    {
        match Layout::new::<T>().repeat(n) {
            Ok((k, offs)) => Ok(k),
            Err(e) => Err(e),
        }
    }
}

} // verus!
