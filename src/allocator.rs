//! Address arithmetic shared by the allocation strategies.
use vstd::prelude::*;

pub mod bump;
pub mod fixed_size_block;
pub mod linked_list;

verus! {

/// `n` is a non-zero power of two.
pub open spec fn is_power_of_two(n: usize) -> bool {
    n > 0 && n & ((n - 1) as usize) == 0
}

/// The address `a` lies on an `n`-byte boundary.
pub open spec fn is_aligned(a: int, n: int) -> bool {
    a % n == 0
}

/// The smallest multiple of `n` that is not below `a`.
pub open spec fn align_up_spec(a: int, n: int) -> int {
    if a % n == 0 {
        a
    } else {
        a - a % n + n
    }
}

/// Rounds `addr` up to the next multiple of `align`, which must be a power of
/// two.
pub fn align_up(addr: usize, align: usize) -> (r: usize)
    requires
        is_power_of_two(align),
        addr + align - 1 <= usize::MAX,
    ensures
        r as int == align_up_spec(addr as int, align as int),
        r % align == 0,
        r >= addr,
        r < addr + align,
        addr % align == 0 ==> r == addr,
{
    proof {
        lemma_align_up_props(addr as int, align as int);
    }
    let rem = addr % align;
    proof {
        vstd::arithmetic::div_mod::lemma_fundamental_div_mod(addr as int, align as int);
        vstd::arithmetic::mul::lemma_mul_nonnegative(align as int, addr as int / align as int);
    }
    if rem == 0 {
        addr
    } else {
        addr - rem + align
    }
}

/// Rounding up gives an aligned address no lower than the input and less
/// than one alignment above it, and leaves an aligned address unchanged.
pub proof fn lemma_align_up_props(a: int, n: int)
    requires
        a >= 0,
        n > 0,
    ensures
        align_up_spec(a, n) % n == 0,
        a <= align_up_spec(a, n) < a + n,
        a % n == 0 ==> align_up_spec(a, n) == a,
{
    vstd::arithmetic::div_mod::lemma_fundamental_div_mod(a, n);
    if a % n != 0 {
        vstd::arithmetic::div_mod::lemma_mod_multiples_basic(a / n + 1, n);
        assert(a - a % n + n == (a / n + 1) * n) by (nonlinear_arith)
            requires a == n * (a / n) + a % n;
    }
}

/// An allocator that never hands out memory.
pub struct Dummy;

impl Dummy {
    /// Every request fails.
    pub fn allocate(&self, size: usize, align: usize) -> (r: Option<usize>)
        ensures
            r.is_none(),
    {
        None
    }
}

} // verus!
