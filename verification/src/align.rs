//! Alignment arithmetic: powers of two, padding, and aligned payload
//! addresses.

use vstd::arithmetic::div_mod::{
    lemma_breakdown, lemma_fundamental_div_mod, lemma_mod_division_less_than_divisor,
    lemma_mod_multiples_basic,
};
use vstd::prelude::*;

use crate::block::{data_addr_of, Block};

verus! {

/// Whether `n` is a power of two.
pub open spec fn is_pow2(n: int) -> bool
    decreases n,
{
    if n < 1 {
        false
    } else if n == 1 {
        true
    } else {
        n % 2 == 0 && is_pow2(n / 2)
    }
}

/// The alignment actually applied: requests below 8 bytes are floored at 8.
pub open spec fn eff_align(align: usize) -> int {
    if align < 8 {
        8
    } else {
        align as int
    }
}

/// Bytes to skip after `addr` to reach the next multiple of `align`.
pub open spec fn padding_for(addr: int, align: int) -> int {
    if addr % align == 0 {
        0
    } else {
        align - addr % align
    }
}

/// Padding a block's payload start needs for an allocation at `align`.
pub open spec fn padding_of(b: Block, align: usize) -> int {
    padding_for(data_addr_of(b), eff_align(align))
}

/// The address an allocation from `b` at `align` would return.
pub open spec fn aligned_addr_of(b: Block, align: usize) -> int {
    data_addr_of(b) + padding_of(b, align)
}

pub proof fn lemma_pow2_pos(n: int)
    requires
        is_pow2(n),
    ensures
        n >= 1,
{
}

/// The applied alignment is a power of two whenever the request is.
pub proof fn lemma_eff_align_pow2(align: usize)
    requires
        is_pow2(align as int),
    ensures
        is_pow2(eff_align(align)),
        eff_align(align) >= 8,
        align as int <= eff_align(align),
{
    assert(is_pow2(2)) by {
        assert(is_pow2(1));
    }
    assert(is_pow2(4));
    assert(is_pow2(8));
    if align >= 8 {
    } else {
        assert(align as int >= 1) by {
            lemma_pow2_pos(align as int);
        }
    }
}

/// Padding is small and lands the address on a multiple of the alignment.
pub proof fn lemma_padding_aligns(addr: int, align: int)
    requires
        addr >= 0,
        align >= 1,
    ensures
        0 <= padding_for(addr, align) < align,
        (addr + padding_for(addr, align)) % align == 0,
{
    broadcast use vstd::arithmetic::mul::lemma_mul_is_commutative;

    lemma_mod_division_less_than_divisor(addr, align);
    lemma_fundamental_div_mod(addr, align);
    let q: int = addr / align;
    let r: int = addr % align;
    if r == 0 {
        assert(addr == q * align);
        lemma_mod_multiples_basic(q, align);
    } else {
        assert(addr + padding_for(addr, align) == (q + 1) * align) by (nonlinear_arith)
            requires
                addr == q * align + r,
                padding_for(addr, align) == align - r,
        ;
        lemma_mod_multiples_basic(q + 1, align);
    }
}

/// A larger power of two is a multiple of a smaller one.
pub proof fn lemma_pow2_divides(a: int, b: int)
    requires
        is_pow2(a),
        is_pow2(b),
        a <= b,
    ensures
        b % a == 0,
    decreases b,
{
    if a == 1 {
        assert(b % 1 == 0) by (nonlinear_arith)
            requires
                b >= 1,
        ;
    } else {
        lemma_pow2_pos(a);
        lemma_pow2_divides(a / 2, b / 2);
        lemma_breakdown(b, 2, a / 2);
        assert(2 * (a / 2) == a);
        assert(b % a == 2 * ((b / 2) % (a / 2)) + b % 2);
    }
}

/// A multiple of one alignment is a multiple of any power of two below it.
pub proof fn lemma_aligned_divides(x: int, big: int, small: int)
    requires
        x >= 0,
        x % big == 0,
        big % small == 0,
        big >= 1,
        small >= 1,
    ensures
        x % small == 0,
{
    lemma_fundamental_div_mod(x, big);
    lemma_fundamental_div_mod(big, small);
    let k: int = x / big;
    let m: int = big / small;
    assert(x == (k * m) * small) by (nonlinear_arith)
        requires
            big != 0,
            small != 0,
            x == big * (x / big) + (x % big),
            big == small * (big / small) + (big % small),
            x % big == 0,
            big % small == 0,
            k == x / big,
            m == big / small,
    ;
    lemma_mod_multiples_basic(k * m, small);
}

} // verus!
