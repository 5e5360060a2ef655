//! Rounding addresses to multiples of an alignment.

use vstd::arithmetic::div_mod::{
    lemma_fundamental_div_mod, lemma_mod_bound, lemma_mod_multiples_basic,
};
use vstd::arithmetic::power2::is_pow2_exists;
use vstd::prelude::*;

verus! {

/// Whether `addr` is a multiple of `align`.
pub open spec fn is_aligned(addr: int, align: int) -> bool {
    addr % align == 0
}

/// The least multiple of `align` that is not below `addr`.
pub open spec fn align_up(addr: int, align: int) -> int {
    if addr % align == 0 {
        addr
    } else {
        addr + (align - addr % align)
    }
}

/// The greatest multiple of `align` that is not above `addr`.
pub open spec fn align_down(addr: int, align: int) -> int {
    addr - addr % align
}

/// `align_up(addr, align)` is a multiple of `align`, lies in
/// `[addr, addr + align)`, and no multiple of `align` lies between `addr` and it.
pub proof fn lemma_align_up_is_least_multiple(addr: int, align: int)
    requires
        align > 0,
    ensures
        is_aligned(align_up(addr, align), align),
        addr <= align_up(addr, align) < addr + align,
        forall|m: int| #[trigger] is_aligned(m, align) && addr <= m ==> align_up(addr, align) <= m,
{
    let q = addr / align;
    let r = addr % align;
    lemma_fundamental_div_mod(addr, align);
    lemma_mod_bound(addr, align);
    assert(align * (q + 1) == align * q + align) by (nonlinear_arith);
    if r != 0 {
        assert(align_up(addr, align) == (q + 1) * align) by (nonlinear_arith)
            requires
                align_up(addr, align) == addr + (align - r),
                addr == align * q + r,
        ;
        lemma_mod_multiples_basic(q + 1, align);
    }
    assert forall|m: int| #[trigger] is_aligned(m, align) && addr <= m implies align_up(
        addr,
        align,
    ) <= m by {
        lemma_multiple_gap(m, q, align);
    }
}

/// `align_down(addr, align)` is a multiple of `align`, lies in
/// `(addr - align, addr]`, and no multiple of `align` lies between it and `addr`.
pub proof fn lemma_align_down_is_greatest_multiple(addr: int, align: int)
    requires
        align > 0,
    ensures
        is_aligned(align_down(addr, align), align),
        addr - align < align_down(addr, align) <= addr,
        forall|m: int|
            #[trigger] is_aligned(m, align) && m <= addr ==> m <= align_down(addr, align),
{
    let q = addr / align;
    lemma_fundamental_div_mod(addr, align);
    lemma_mod_bound(addr, align);
    assert(align_down(addr, align) == q * align) by (nonlinear_arith)
        requires
            align_down(addr, align) == addr - addr % align,
            addr == align * q + addr % align,
    ;
    lemma_mod_multiples_basic(q, align);
    assert(align * (q + 1) == align * q + align) by (nonlinear_arith);
    assert forall|m: int| #[trigger] is_aligned(m, align) && m <= addr implies m <= align_down(
        addr,
        align,
    ) by {
        lemma_multiple_gap(m, q, align);
    }
}

/// A multiple of `align` is never strictly between two neighbouring multiples.
proof fn lemma_multiple_gap(m: int, q: int, align: int)
    requires
        align > 0,
        m % align == 0,
    ensures
        m <= q * align || (q + 1) * align <= m,
{
    let k = m / align;
    lemma_fundamental_div_mod(m, align);
    assert(m <= q * align || (q + 1) * align <= m) by (nonlinear_arith)
        requires
            align > 0,
            m == align * k,
    {
        if k <= q {
            assert(align * k <= q * align);
        } else {
            assert((q + 1) * align <= align * k);
        }
    }
}

/// Rounds `addr` up to a multiple of `align`; `None` when that multiple does
/// not fit in a `usize`.
pub fn round_up(addr: usize, align: usize) -> (r: Option<usize>)
    requires
        align > 0,
    ensures
        match r {
            Some(a) => a == align_up(addr as int, align as int),
            None => align_up(addr as int, align as int) > usize::MAX,
        },
{
    proof {
        lemma_mod_bound(addr as int, align as int);
    }
    let rem: usize = addr % align;
    if rem == 0 {
        Some(addr)
    } else {
        addr.checked_add(align - rem)
    }
}

/// Rounds `addr` down to a multiple of `align`.
pub fn round_down(addr: usize, align: usize) -> (r: usize)
    requires
        align > 0,
    ensures
        r == align_down(addr as int, align as int),
{
    proof {
        lemma_mod_bound(addr as int, align as int);
        lemma_fundamental_div_mod(addr as int, align as int);
        assert(0 <= (align as int) * ((addr as int) / (align as int))) by (nonlinear_arith)
            requires
                align > 0,
                addr >= 0,
        ;
    }
    let rem: usize = addr % align;
    addr - rem
}

/// What `usize::is_power_of_two` returns: whether `x` equals two raised to
/// some natural number. Zero is not a power of two.
pub assume_specification[ usize::is_power_of_two ](x: usize) -> (r: bool)
    ensures
        r == is_pow2_exists(x as int),
;

} // verus!
