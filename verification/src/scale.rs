use vstd::prelude::*;

verus! {

use vstd::arithmetic::div_mod::{
    lemma_basic_div,
    lemma_div_is_ordered,
    lemma_div_multiples_vanish_fancy,
    lemma_div_plus_one,
    lemma_div_pos_is_pos,
};

/// Linear rescaling of `v` from the interval [lo, lo + range] onto 0..=255,
/// rounding half up: the integer nearest to (v - lo) * 255 / range, with
/// exact halves rounded away from zero.
pub open spec fn scale(v: int, lo: int, range: int) -> int {
    ((v - lo) * 510 + range) / (2 * range)
}

pub proof fn lemma_scale_bounds(v: int, lo: int, range: int)
    requires
        0 < range,
        lo <= v <= lo + range,
    ensures
        0 <= scale(v, lo, range) <= 255,
        v == lo ==> scale(v, lo, range) == 0,
        v == lo + range ==> scale(v, lo, range) == 255,
{
    let a = v - lo;
    let num = a * 510 + range;
    let den = 2 * range;
    assert(num >= range > 0) by (nonlinear_arith)
        requires 0 <= a && 0 < range, num == a * 510 + range;
    lemma_div_pos_is_pos(num, den);
    assert(num <= den * 255 + range) by (nonlinear_arith)
        requires a <= range && 0 < range, num == a * 510 + range, den == 2 * range;
    lemma_div_is_ordered(num, den * 255 + range, den);
    lemma_div_multiples_vanish_fancy(255, range, den);
    if v == lo {
        lemma_basic_div(range, den);
    }
    if v == lo + range {
        assert(num == den * 255 + range) by (nonlinear_arith)
            requires a == range, num == a * 510 + range, den == 2 * range;
    }
}

/// Strict monotonicity: when the input range is at most 255, distinct inputs
/// keep distinct (and ordered) scaled values.
pub proof fn lemma_scale_strict_mono(v1: int, v2: int, lo: int, range: int)
    requires
        0 < range <= 255,
        lo <= v1 < v2 <= lo + range,
    ensures
        scale(v1, lo, range) < scale(v2, lo, range),
        scale(v1, lo, range) + (v2 - v1) <= scale(v2, lo, range),
{
    lemma_scale_mono_step(v1 - lo, v2 - lo, lo, range);
}

proof fn lemma_scale_mono_step(a1: int, a2: int, lo: int, range: int)
    requires
        0 < range <= 255,
        0 <= a1 < a2 <= range,
    ensures
        scale(a1 + lo, lo, range) + (a2 - a1) <= scale(a2 + lo, lo, range),
    decreases a2 - a1,
{
    let den = 2 * range;
    let num1 = a1 * 510 + range;
    if a2 == a1 + 1 {
        let num2 = a2 * 510 + range;
        assert(num2 == num1 + 510) by (nonlinear_arith)
            requires num1 == a1 * 510 + range, num2 == a2 * 510 + range, a2 == a1 + 1;
        lemma_div_plus_one(num1, den);
        lemma_div_is_ordered(den + num1, num2, den);
    } else {
        lemma_scale_mono_step(a1, a2 - 1, lo, range);
        lemma_scale_mono_step(a2 - 1, a2, lo, range);
    }
}

/// Monotonicity without a bound on the range: ordering of inputs is preserved.
pub proof fn lemma_scale_mono(v1: int, v2: int, lo: int, range: int)
    requires
        0 < range,
        v1 <= v2,
    ensures
        scale(v1, lo, range) <= scale(v2, lo, range),
{
    assert((v1 - lo) * 510 + range <= (v2 - lo) * 510 + range) by (nonlinear_arith)
        requires v1 <= v2;
    lemma_div_is_ordered((v1 - lo) * 510 + range, (v2 - lo) * 510 + range, 2 * range);
}

/// Executable form of `scale` on byte intensities.
pub fn scale_intensity(v: u8, lo: u8, range: u8) -> (r: u8)
    requires
        range > 0,
        lo <= v,
        v - lo <= range,
    ensures
        r == scale(v as int, lo as int, range as int),
{
    proof {
        lemma_scale_bounds(v as int, lo as int, range as int);
    }
    let num: u32 = (v - lo) as u32 * 510 + range as u32;
    let den: u32 = 2 * range as u32;
    (num / den) as u8
}

} // verus!
