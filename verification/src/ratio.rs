//! Fixed-point fractions and the one rounding rule of the library.

use vstd::prelude::*;

verus! {

/// The fixed-point representation of 1.0: a velocity or a mix ratio `x`
/// stands for the fraction `x / UNIT`.
pub const UNIT: u32 = 1_000_000;

/// The integer nearest to `num / den`, a tie going up.
pub open spec fn round_half_up(num: int, den: int) -> int
    recommends
        num >= 0,
        den > 0,
{
    (2 * num + den) / (2 * den)
}

/// `round_half_up(num, den)` is the only integer `r` with
/// `r - 1/2 <= num / den < r + 1/2`.
pub proof fn lemma_round_half_up_is(num: int, den: int, r: int)
    by (nonlinear_arith)
    requires
        den > 0,
        2 * den * r <= 2 * num + den,
        2 * num + den < 2 * den * (r + 1),
    ensures
        round_half_up(num, den) == r,
{
    let q = (2 * num + den) / (2 * den);
    let m = (2 * num + den) % (2 * den);
    assert(2 * num + den == (2 * den) * q + m && 0 <= m < 2 * den) by {
        vstd::arithmetic::div_mod::lemma_fundamental_div_mod(2 * num + den, 2 * den);
    }
    if q < r {
        assert((2 * den) * (q + 1) <= (2 * den) * r);
    } else if q > r {
        assert((2 * den) * (r + 1) <= (2 * den) * q);
    }
}

/// The rounded quotient is within one half of the exact one.
pub proof fn lemma_round_half_up_bounds(num: int, den: int)
    by (nonlinear_arith)
    requires
        den > 0,
    ensures
        2 * den * round_half_up(num, den) <= 2 * num + den,
        2 * num + den < 2 * den * (round_half_up(num, den) + 1),
{
    vstd::arithmetic::div_mod::lemma_fundamental_div_mod(2 * num + den, 2 * den);
}

/// Rounding does not depend on how the fraction is written.
pub proof fn lemma_round_half_up_scale(num: int, den: int, k: int)
    requires
        den > 0,
        k > 0,
    ensures
        round_half_up(k * num, k * den) == round_half_up(num, den),
{
    let r = round_half_up(num, den);
    lemma_round_half_up_bounds(num, den);
    assert(k * den > 0 && 2 * (k * den) * r <= 2 * (k * num) + k * den && 2 * (k * num) + k * den
        < 2 * (k * den) * (r + 1)) by (nonlinear_arith)
        requires
            den > 0,
            k > 0,
            2 * den * r <= 2 * num + den,
            2 * num + den < 2 * den * (r + 1),
    ;
    lemma_round_half_up_is(k * num, k * den, r);
}

/// A fraction between two whole numbers rounds to a number between them.
pub proof fn lemma_round_half_up_between(num: int, den: int, lo: int, hi: int)
    requires
        den > 0,
        lo * den <= num <= hi * den,
    ensures
        lo <= round_half_up(num, den) <= hi,
{
    let r = round_half_up(num, den);
    lemma_round_half_up_bounds(num, den);
    assert(lo <= r <= hi) by (nonlinear_arith)
        requires
            den > 0,
            lo * den <= num <= hi * den,
            2 * den * r <= 2 * num + den,
            2 * num + den < 2 * den * (r + 1),
    ;
}

} // verus!
