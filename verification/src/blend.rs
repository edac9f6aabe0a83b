//! Interpolation between two means, each given as a sum and a count.

use vstd::prelude::*;
use crate::ratio::{
    lemma_round_half_up_between, lemma_round_half_up_is, lemma_round_half_up_scale, round_half_up,
    UNIT,
};

verus! {

/// Numerator of the interpolated mean
/// `(sum_a / count_a) * (1 - mix / UNIT) + (sum_b / count_b) * (mix / UNIT)`
/// written as one fraction over `blend_den`.
pub open spec fn blend_num(sum_a: int, count_a: int, sum_b: int, count_b: int, mix: int) -> int {
    sum_a * count_b * (UNIT - mix) + sum_b * count_a * mix
}

/// Denominator of the interpolated mean.
pub open spec fn blend_den(count_a: int, count_b: int) -> int {
    count_a * count_b * UNIT
}

/// The mean of side A and the mean of side B, interpolated at `mix / UNIT`
/// and rounded once to the nearest integer, a tie going up.
pub open spec fn blend(sum_a: int, count_a: int, sum_b: int, count_b: int, mix: int) -> int
    recommends
        count_a > 0,
        count_b > 0,
        0 <= mix <= UNIT,
{
    round_half_up(blend_num(sum_a, count_a, sum_b, count_b, mix), blend_den(count_a, count_b))
}

/// With the mix ratio at zero the result is the mean of side A.
pub proof fn lemma_blend_at_zero(sum_a: int, count_a: int, sum_b: int, count_b: int)
    requires
        count_a > 0,
        count_b > 0,
    ensures
        blend(sum_a, count_a, sum_b, count_b, 0) == round_half_up(sum_a, count_a),
{
    let k = count_b * UNIT;
    assert(k > 0 && blend_num(sum_a, count_a, sum_b, count_b, 0) == k * sum_a && blend_den(
        count_a,
        count_b,
    ) == k * count_a) by (nonlinear_arith)
        requires
            k == count_b * UNIT,
            count_b > 0,
    ;
    lemma_round_half_up_scale(sum_a, count_a, k);
}

/// With the mix ratio at `UNIT` the result is the mean of side B.
pub proof fn lemma_blend_at_unit(sum_a: int, count_a: int, sum_b: int, count_b: int)
    requires
        count_a > 0,
        count_b > 0,
    ensures
        blend(sum_a, count_a, sum_b, count_b, UNIT as int) == round_half_up(sum_b, count_b),
{
    let k = count_a * UNIT;
    assert(k > 0 && blend_num(sum_a, count_a, sum_b, count_b, UNIT as int) == k * sum_b
        && blend_den(count_a, count_b) == k * count_b) by (nonlinear_arith)
        requires
            k == count_a * UNIT,
            count_a > 0,
    ;
    lemma_round_half_up_scale(sum_b, count_b, k);
}

/// Where the two sides have the same mean, the result is that mean whatever
/// the mix ratio.
pub proof fn lemma_blend_equal_means(sum_a: int, count_a: int, sum_b: int, count_b: int, mix: int)
    requires
        count_a > 0,
        count_b > 0,
        sum_a * count_b == sum_b * count_a,
    ensures
        blend(sum_a, count_a, sum_b, count_b, mix) == round_half_up(sum_a, count_a),
{
    let k = count_b * UNIT;
    assert(k > 0 && blend_num(sum_a, count_a, sum_b, count_b, mix) == k * sum_a && blend_den(
        count_a,
        count_b,
    ) == k * count_a) by (nonlinear_arith)
        requires
            k == count_b * UNIT,
            count_b > 0,
            sum_a * count_b == sum_b * count_a,
    ;
    lemma_round_half_up_scale(sum_a, count_a, k);
}

/// Interpolation is convex: bounds that hold of both means hold of the result.
pub proof fn lemma_blend_between(
    sum_a: int,
    count_a: int,
    sum_b: int,
    count_b: int,
    mix: int,
    lo: int,
    hi: int,
)
    requires
        count_a > 0,
        count_b > 0,
        0 <= mix <= UNIT,
        lo * count_a <= sum_a <= hi * count_a,
        lo * count_b <= sum_b <= hi * count_b,
    ensures
        lo <= blend(sum_a, count_a, sum_b, count_b, mix) <= hi,
        blend_den(count_a, count_b) > 0,
        lo * blend_den(count_a, count_b) <= blend_num(sum_a, count_a, sum_b, count_b, mix),
        blend_num(sum_a, count_a, sum_b, count_b, mix) <= hi * blend_den(count_a, count_b),
{
    let w = UNIT - mix;
    let num = blend_num(sum_a, count_a, sum_b, count_b, mix);
    let den = blend_den(count_a, count_b);
    let ta = sum_a * count_b * w;
    let tb = sum_b * count_a * mix;
    let cc = count_a * count_b;
    assert(cc > 0) by (nonlinear_arith)
        requires
            cc == count_a * count_b,
            count_a > 0,
            count_b > 0,
    ;
    assert(lo * cc * w <= ta <= hi * cc * w) by (nonlinear_arith)
        requires
            ta == sum_a * count_b * w,
            cc == count_a * count_b,
            lo * count_a <= sum_a <= hi * count_a,
            count_b > 0,
            w >= 0,
    ;
    assert(lo * cc * mix <= tb <= hi * cc * mix) by (nonlinear_arith)
        requires
            tb == sum_b * count_a * mix,
            cc == count_a * count_b,
            lo * count_b <= sum_b <= hi * count_b,
            count_a > 0,
            mix >= 0,
    ;
    assert(den == cc * UNIT && den > 0 && lo * den == lo * cc * w + lo * cc * mix && hi * den == hi
        * cc * w + hi * cc * mix) by (nonlinear_arith)
        requires
            den == count_a * count_b * UNIT,
            cc == count_a * count_b,
            cc > 0,
            w == UNIT - mix,
    ;
    lemma_round_half_up_between(num, den, lo, hi);
}

/// The interpolated mean from its parts. With each weighted sum divided by
/// its count, the two quotients and one carry from the two remainders make
/// up the whole steps of `UNIT`; what is left of the remainders is less
/// than one step and cannot change the rounding, `UNIT` being even.
proof fn lemma_blend_by_parts(
    sum_a: int,
    count_a: int,
    sum_b: int,
    count_b: int,
    mix: int,
    qa: int,
    ra: int,
    qb: int,
    rb: int,
    carry: int,
)
    requires
        count_a > 0,
        count_b > 0,
        sum_a * (UNIT - mix) == qa * count_a + ra,
        0 <= ra < count_a,
        sum_b * mix == qb * count_b + rb,
        0 <= rb < count_b,
        carry == if ra * count_b >= (count_b - rb) * count_a {
            1int
        } else {
            0int
        },
    ensures
        blend(sum_a, count_a, sum_b, count_b, mix) == (qa + qb + carry + UNIT / 2) / (UNIT as int),
{
    let p = count_a * count_b;
    let num = blend_num(sum_a, count_a, sum_b, count_b, mix);
    let den = blend_den(count_a, count_b);
    let left = ra * count_b + rb * count_a - carry * p;
    let whole = qa + qb + carry;
    let k = whole + 500_000;
    let r = k / 1_000_000;
    let k0 = k % 1_000_000;
    assert(p > 0 && den == p * 1_000_000) by (nonlinear_arith)
        requires
            p == count_a * count_b,
            den == count_a * count_b * 1_000_000,
            count_a > 0,
            count_b > 0,
    ;
    let w = UNIT - mix;
    let ta = sum_a * count_b * w;
    let tb = sum_b * count_a * mix;
    assert(ta == (sum_a * w) * count_b) by (nonlinear_arith)
        requires
            ta == sum_a * count_b * w,
    ;
    assert((qa * count_a + ra) * count_b == qa * p + ra * count_b) by (nonlinear_arith)
        requires
            p == count_a * count_b,
    ;
    assert(tb == (sum_b * mix) * count_a) by (nonlinear_arith)
        requires
            tb == sum_b * count_a * mix,
    ;
    assert((qb * count_b + rb) * count_a == qb * p + rb * count_a) by (nonlinear_arith)
        requires
            p == count_a * count_b,
    ;
    assert((qa + qb) * p == qa * p + qb * p) by (nonlinear_arith);
    assert(num == (qa + qb) * p + ra * count_b + rb * count_a);
    assert(0 <= left < p) by (nonlinear_arith)
        requires
            left == ra * count_b + rb * count_a - carry * p,
            p == count_a * count_b,
            0 <= ra < count_a,
            0 <= rb < count_b,
            carry == if ra * count_b >= (count_b - rb) * count_a {
                1int
            } else {
                0int
            },
    ;
    assert(2 * num + den == 2 * p * k + 2 * left) by (nonlinear_arith)
        requires
            num == (qa + qb) * p + ra * count_b + rb * count_a,
            left == ra * count_b + rb * count_a - carry * p,
            den == p * 1_000_000,
            k == qa + qb + carry + 500_000,
    ;
    assert(2 * den * r <= 2 * num + den < 2 * den * (r + 1)) by (nonlinear_arith)
        requires
            2 * num + den == 2 * p * k + 2 * left,
            den == p * 1_000_000,
            k == r * 1_000_000 + k0,
            0 <= k0 < 1_000_000,
            0 <= left < p,
    ;
    lemma_round_half_up_is(num, den, r);
}

/// Computes `blend` for sums whose means fit in 32 bits, whatever the
/// counts: each weighted sum is divided by its own count, so that no
/// product of the two counts with a sum is ever formed.
pub fn interpolate(sum_a: u128, count_a: u64, sum_b: u128, count_b: u64, mix: u32) -> (r: u32)
    requires
        count_a > 0,
        count_b > 0,
        mix <= UNIT,
        sum_a <= u32::MAX * count_a,
        sum_b <= u32::MAX * count_b,
    ensures
        r == blend(sum_a as int, count_a as int, sum_b as int, count_b as int, mix as int),
{
    let weight_a: u32 = UNIT - mix;
    let ca: u128 = count_a as u128;
    let cb: u128 = count_b as u128;
    proof {
        assert(sum_a * weight_a <= 0xffff_ffff * 0xffff_ffff_ffff_ffff * 1_000_000 && sum_b * mix
            <= 0xffff_ffff * 0xffff_ffff_ffff_ffff * 1_000_000) by (nonlinear_arith)
            requires
                sum_a <= 0xffff_ffff * count_a,
                sum_b <= 0xffff_ffff * count_b,
                count_a <= 0xffff_ffff_ffff_ffff,
                count_b <= 0xffff_ffff_ffff_ffff,
                weight_a <= 1_000_000,
                mix <= 1_000_000,
        ;
    }
    let weighted_a: u128 = sum_a * (weight_a as u128);
    let weighted_b: u128 = sum_b * (mix as u128);
    let whole_a: u128 = weighted_a / ca;
    let whole_b: u128 = weighted_b / cb;
    let rest_a: u128 = weighted_a % ca;
    let rest_b: u128 = weighted_b % cb;
    proof {
        vstd::arithmetic::div_mod::lemma_fundamental_div_mod(weighted_a as int, ca as int);
        vstd::arithmetic::div_mod::lemma_fundamental_div_mod(weighted_b as int, cb as int);
        assert(rest_a * cb <= 0xffff_ffff_ffff_ffff * 0xffff_ffff_ffff_ffff && (cb - rest_b) * ca
            <= 0xffff_ffff_ffff_ffff * 0xffff_ffff_ffff_ffff) by (nonlinear_arith)
            requires
                rest_a < ca,
                rest_b < cb,
                ca <= 0xffff_ffff_ffff_ffff,
                cb <= 0xffff_ffff_ffff_ffff,
        ;
    }
    let carry: u128 = if rest_a * cb >= (cb - rest_b) * ca {
        1
    } else {
        0
    };
    proof {
        lemma_blend_between(
            sum_a as int,
            count_a as int,
            sum_b as int,
            count_b as int,
            mix as int,
            0,
            u32::MAX as int,
        );
        lemma_blend_by_parts(
            sum_a as int,
            count_a as int,
            sum_b as int,
            count_b as int,
            mix as int,
            whole_a as int,
            rest_a as int,
            whole_b as int,
            rest_b as int,
            carry as int,
        );
        assert(whole_a <= weighted_a && whole_b <= weighted_b) by (nonlinear_arith)
            requires
                weighted_a == ca * whole_a + rest_a,
                weighted_b == cb * whole_b + rest_b,
                ca >= 1,
                cb >= 1,
                whole_a >= 0,
                whole_b >= 0,
                rest_a >= 0,
                rest_b >= 0,
        ;
    }
    let steps: u128 = whole_a + whole_b + carry + (UNIT / 2) as u128;
    (steps / (UNIT as u128)) as u32
}

} // verus!
