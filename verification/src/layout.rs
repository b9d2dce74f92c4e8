//! Size/alignment requests, the error taxonomy, and alignment arithmetic.

use vstd::prelude::*;

verus! {

/// One more than the largest representable signed offset: requests whose
/// size exceeds this are rejected as unsupported before any block is touched.
pub const MAX_OBJECT_SIZE: usize = usize::MAX / 2 + 1;

/// An alignment is valid when it is a power of two. The predicate mirrors
/// the executable bit test exactly.
pub open spec fn is_power_of_two(a: usize) -> bool {
    a != 0 && (a & ((a - 1) as usize)) == 0
}

/// An allocation request: a size in bytes and a power-of-two alignment.
#[derive(Clone, Copy, PartialEq, Eq, Structural, Debug)]
pub struct Layout {
    pub size: usize,
    pub align: usize,
}

impl Layout {
    /// A request is well formed when its alignment is a power of two.
    pub open spec fn wf(self) -> bool {
        is_power_of_two(self.align)
    }

    /// Builds a request, rejecting alignments that are not powers of two.
    pub fn from_size_align(size: usize, align: usize) -> (r: Option<Layout>)
        ensures
            r is Some <==> is_power_of_two(align),
            r matches Some(l) ==> l == (Layout { size, align }) && l.wf(),
    {
        if align != 0 && (align & (align - 1)) == 0 {
            Some(Layout { size, align })
        } else {
            None
        }
    }
}

/// Why an allocation request failed.
#[derive(Clone, Copy, PartialEq, Eq, Structural, Debug)]
pub enum AllocErr {
    /// The requested size exceeds `MAX_OBJECT_SIZE`.
    Unsupported,
    /// No block could satisfy the request; the original request is carried
    /// along so the owner can retry it against a fresh block. The same
    /// variant reports the terminal failure of creating a fresh backing
    /// buffer (the address space cannot hold it): the allocator interface
    /// has only these two failure kinds, so out-of-memory at buffer
    /// creation travels as a final, non-retried `Exhausted`.
    Exhausted { request: Layout },
}

/// The negative answer of an in-place resize attempt: the caller must fall
/// back to a copying reallocation.
#[derive(Clone, Copy, PartialEq, Eq, Structural, Debug)]
pub struct CannotReallocInPlace;

/// The minimal number of bytes needed to advance from `value` to the next
/// address that is a multiple of `align`.
pub open spec fn spec_align_padding(value: int, align: int) -> int {
    if value % align == 0 {
        0
    } else {
        align - value % align
    }
}

/// The padding is less than the alignment, and advancing by it lands on an
/// aligned address.
pub proof fn lemma_align_padding(value: int, align: int)
    requires
        align >= 1,
        value >= 0,
    ensures
        0 <= spec_align_padding(value, align) < align,
        (value + spec_align_padding(value, align)) % align == 0,
{
    let r = value % align;
    vstd::arithmetic::div_mod::lemma_mod_bound(value, align);
    if r != 0 {
        vstd::arithmetic::div_mod::lemma_fundamental_div_mod(value, align);
        let q = value / align;
        assert(value + (align - r) == align * (q + 1)) by (nonlinear_arith)
            requires
                value == align * q + r,
        ;
        vstd::arithmetic::div_mod::lemma_mod_multiples_basic(q + 1, align);
    }
}

/// Computes the padding that advances `value` to the next multiple of
/// `align`.
pub fn align_padding(value: usize, align: usize) -> (r: usize)
    requires
        is_power_of_two(align),
    ensures
        r == spec_align_padding(value as int, align as int),
        r < align,
        (value + r) % (align as int) == 0,
{
    proof {
        lemma_align_padding(value as int, align as int);
    }
    let rem = value % align;
    if rem == 0 {
        0
    } else {
        align - rem
    }
}

/// True when `value` is a multiple of `alignment`.
pub fn is_aligned(value: usize, alignment: usize) -> (r: bool)
    requires
        is_power_of_two(alignment),
    ensures
        r == (value as int % (alignment as int) == 0),
{
    value % alignment == 0
}

/// Rejects requests larger than the maximum addressable object size. Leaves
/// every other request alone.
pub fn check_layout(layout: Layout) -> (r: Result<(), AllocErr>)
    ensures
        layout.size <= MAX_OBJECT_SIZE ==> r == Ok::<(), AllocErr>(()),
        layout.size > MAX_OBJECT_SIZE ==> r == Err::<(), AllocErr>(AllocErr::Unsupported),
{
    if layout.size > MAX_OBJECT_SIZE {
        Err(AllocErr::Unsupported)
    } else {
        Ok(())
    }
}

} // verus!
