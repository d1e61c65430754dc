//! What the operations on single values do.
use crate::field::modulus;
use crate::layers::activation::relu;
use crate::layers::requant::Requant;
use crate::quantization::{centered, clamped};
use vstd::arithmetic::div_mod::*;
use vstd::arithmetic::mul::*;
use vstd::arithmetic::power2::*;
use vstd::prelude::*;

verus! {

/// Bringing a value into range gives the value of the range that is nearest to it: the greatest
/// for values from there on, the least for values down from there, and the value itself in
/// between.
pub proof fn law_clamped(x: int)
    ensures
        x >= 127 ==> clamped(x) == 127,
        x <= -127 ==> clamped(x) == -127,
        -127 <= x <= 127 ==> clamped(x) == x,
{
}

/// Bringing values into range keeps their order.
pub proof fn law_clamped_monotone(x: int, y: int)
    requires
        x <= y,
    ensures
        clamped(x) <= clamped(y),
        clamped(y) - clamped(x) <= y - x,
        clamped(-x) == -clamped(x),
{
}

/// The activation gives the least value that is neither negative nor below its argument.
pub proof fn law_relu_least(e: int, bound: int)
    ensures
        relu(e) >= 0,
        relu(e) >= e,
        bound >= 0 && bound >= e ==> relu(e) <= bound,
        e < 0 ==> relu(e) == 0,
{
}

/// The activation keeps the order of values, and moves no two further apart.
pub proof fn law_relu_monotone(d: int, e: int)
    requires
        d <= e,
    ensures
        relu(d) <= relu(e),
        relu(e) - relu(d) <= e - d,
        relu(e) - relu(-e) == e,
{
}

/// Requantisation multiplies, adds half a unit, shifts down and brings into range. With
/// `sum = v m + 2^(s-1)`, where `s` is the shift: a result below the greatest is at least
/// `sum / 2^s`, rounded down, and one above the least is at most that.
pub proof fn law_requantised_value(r: Requant, v: int)
    requires
        r.fp_scale + r.right_shift >= 1,
    ensures
        ({
            let s = r.fp_scale + r.right_shift;
            let sum = v * r.fixed_point_multiplier + pow2((s - 1) as nat);
            let unit = pow2(s as nat) as int;
            let y = r.applied(v);
            &&& -127 <= y <= 127
            &&& y < 127 ==> sum < (y + 1) * unit
            &&& y > -127 ==> y * unit <= sum
            &&& sum >= 127 * unit ==> y == 127
            &&& sum < -126 * unit ==> y == -127
        }),
{
    let s = r.fp_scale + r.right_shift;
    let sum = v * r.fixed_point_multiplier + pow2((s - 1) as nat);
    let unit = pow2(s as nat) as int;
    lemma_pow2_pos(s as nat);
    lemma_quotient(sum, unit);
    let q = sum / unit;
    let y = r.applied(v);
    assert(q == r.rounded(v));
    if y < 127 {
        assert(q <= y);
        lemma_mul_inequality(q + 1, y + 1, unit);
    }
    if y > -127 {
        assert(y <= q);
        lemma_mul_inequality(y, q, unit);
    }
    if sum >= 127 * unit && q < 127 {
        lemma_mul_inequality(q + 1, 127, unit);
    }
    if sum < -126 * unit && q >= -126 {
        lemma_mul_inequality(-126, q, unit);
    }
}

/// A quotient is the whole number of times that the divisor goes into a value.
pub proof fn lemma_quotient(x: int, d: int)
    requires
        d > 0,
    ensures
        (x / d) * d <= x < (x / d + 1) * d,
        x - (x / d) * d == x % d,
{
    lemma_fundamental_div_mod(x, d);
    lemma_mod_bound(x, d);
    lemma_mul_is_commutative(d, x / d);
    lemma_mul_is_distributive_add_other_way(d, x / d, 1);
}

/// Requantisation with a multiplier that is not negative keeps the order of values.
pub proof fn law_requantised_monotone(r: Requant, v: int, w: int)
    requires
        r.fp_scale + r.right_shift >= 1,
        r.fixed_point_multiplier >= 0,
        v <= w,
    ensures
        r.applied(v) <= r.applied(w),
        -127 <= r.applied(v),
        r.applied(w) <= 127,
{
    let s = r.fp_scale + r.right_shift;
    lemma_pow2_pos(s as nat);
    lemma_mul_inequality(v, w, r.fixed_point_multiplier as int);
    lemma_div_is_ordered(r.scaled(v), r.scaled(w), pow2(s as nat) as int);
}

/// What requantisation needs to hold of a value: that the product fits, and the product with half
/// a unit added.
pub proof fn law_requant_holds(r: Requant, v: int)
    requires
        r.fp_scale + r.right_shift >= 1,
    ensures
        r.holds(v) <==> i128::MIN <= v * r.fixed_point_multiplier && v * r.fixed_point_multiplier
            + pow2((r.fp_scale + r.right_shift - 1) as nat) <= i128::MAX,
{
    lemma_pow2_pos((r.fp_scale + r.right_shift - 1) as nat);
}

/// The centred remainder differs from the value by a multiple of the prime, and lies within half
/// the prime of zero.
pub proof fn law_centered_remainder(x: int)
    ensures
        ({
            let p = 0xffff_ffff_0000_0001int;
            &&& modulus() == p
            &&& -(p / 2) <= centered(x) <= p / 2
            &&& (x - centered(x)) % p == 0
            &&& exists|k: int| x == #[trigger] (k * p) + centered(x)
        }),
{
    let p = modulus();
    lemma_quotient(x, p);
    let k = if x % p <= p / 2 {
        x / p
    } else {
        x / p + 1
    };
    lemma_mul_is_distributive_add_other_way(p, x / p, 1);
    assert(x == k * p + centered(x));
    lemma_mod_multiples_basic(k, p);
}

} // verus!
