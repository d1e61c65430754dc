//! Quantised values, and their images in the field.
use crate::arith::{lemma_pow2_mono, lemma_pow2_step, lemma_pow2_zero};
use crate::field::{Fe, GoldilocksExt2, MODULUS, fint, modulus};
use vstd::arithmetic::div_mod::*;
use vstd::arithmetic::power2::*;
use vstd::prelude::*;

verus! {

/// A quantised value. The range is far wider than that of a quantised input: a layer may add up
/// many products before its result is brought back into range.
pub type Element = i128;

/// The number of bits of a quantised value.
pub const BIT_LEN: usize = 8;

/// The least quantised value. The range is symmetric around zero.
pub const MIN: Element = -127;

/// The greatest quantised value.
pub const MAX: Element = 127;

/// The value of `x` modulo the prime that is nearest to zero.
pub open spec fn centered(x: int) -> int {
    let r = x % modulus();
    if r <= modulus() / 2 {
        r
    } else {
        r - modulus()
    }
}

/// `x` brought into the range of quantised values.
pub open spec fn clamped(x: int) -> int {
    if x < MIN {
        MIN as int
    } else if x > MAX {
        MAX as int
    } else {
        x
    }
}

/// The images in the field of a sequence of values.
pub open spec fn fints(s: Seq<Element>) -> Seq<Fe> {
    Seq::new(s.len(), |i: int| fint(s[i] as int))
}

pub open spec fn fits(x: int) -> bool {
    i128::MIN <= x <= i128::MAX
}

/// The image in the field does not tell a value from its centred remainder.
pub proof fn lemma_fint_centered(x: int)
    ensures
        fint(centered(x)) == fint(x),
{
    let p = modulus();
    let r = x % p;
    lemma_mod_twice(x, p);
    lemma_mod_add_multiples_vanish(r - p, p);
}

/// A value that is small against the prime is recovered from its image in the field.
pub proof fn law_centered(x: int)
    requires
        -(modulus() / 2) <= x <= modulus() / 2,
    ensures
        centered(x) == x,
        centered(fint(x).0) == x,
{
    let p = modulus();
    if x >= 0 {
        lemma_small_mod(x as nat, p as nat);
    } else {
        lemma_mod_add_multiples_vanish(x, p);
        lemma_small_mod((x + p) as nat, p as nat);
    }
    lemma_mod_twice(x, p);
}

/// Clamping twice is clamping once.
pub proof fn law_clamped_idempotent(x: int)
    ensures
        clamped(clamped(x)) == clamped(x),
        MIN <= clamped(x) <= MAX,
{
}

/// The image of `e` in the field: negative values count down from the prime.
pub fn to_field(e: Element) -> (r: GoldilocksExt2)
    ensures
        r@ == fint(e as int),
        r.c1 == 0,
{
    let m = modulus_u128();
    let c: u128 = if e >= 0 {
        (e as u128) % m
    } else {
        let q: u128 = (-1 - e) as u128;
        proof {
            lemma_negative_mod(e as int, modulus());
        }
        m - 1 - q % m
    };
    GoldilocksExt2 { c0: c as u64, c1: 0 }
}

fn modulus_u128() -> (m: u128)
    ensures
        m == modulus(),
{
    MODULUS as u128
}

pub proof fn lemma_negative_mod(e: int, p: int)
    requires
        e < 0,
        p > 0,
    ensures
        e % p == p - 1 - (-1 - e) % p,
        e / p == -1 - (-1 - e) / p,
{
    let q = -1 - e;
    lemma_fundamental_div_mod(q, p);
    lemma_mod_bound(q, p);
    let d = q / p;
    let r = q % p;
    assert(e == p * (-1 - d) + (p - 1 - r)) by (nonlinear_arith)
        requires
            e == -1 - q,
            q == p * d + r,
    ;
    lemma_fundamental_div_mod_converse(e, p, -1 - d, p - 1 - r);
}

/// The value nearest to zero whose image is the first coordinate of `x`.
pub fn to_element(x: &GoldilocksExt2) -> (e: Element)
    ensures
        e == centered(x@.0),
{
    let m = modulus_u128();
    let c: u128 = (x.c0 as u128) % m;
    proof {
        lemma_mod_twice(x.c0 as int, modulus());
    }
    if c <= m / 2 {
        c as i128
    } else {
        -((m - c) as i128)
    }
}

/// `2^s`.
pub fn power_of_two(s: usize) -> (r: u128)
    requires
        s <= 127,
    ensures
        r == pow2(s as nat),
        0 < r,
{
    let mut r: u128 = 1;
    let mut i: usize = 0;
    proof {
        lemma_pow2_zero();
        lemma_pow2_127();
    }
    while i < s
        invariant
            i <= s <= 127,
            r == pow2(i as nat),
            r > 0,
            pow2(127) <= i128::MAX + 1,
        decreases s - i,
    {
        proof {
            lemma_pow2_step(i as nat);
            lemma_pow2_mono(i as nat + 1, 127);
        }
        r = r * 2;
        i = i + 1;
    }
    r
}

pub proof fn lemma_pow2_127()
    ensures
        pow2(127) == i128::MAX + 1,
        pow2(126) * 2 == pow2(127),
{
    lemma2_to64();
    lemma2_to64_rest();
    lemma_pow2_adds(63, 64);
    lemma_pow2_step(126);
}

/// `x` divided by `2^s`, rounded down.
pub fn shift_right(x: Element, s: usize) -> (r: Element)
    requires
        s <= 127,
    ensures
        r == x as int / (pow2(s as nat) as int),
{
    let p = power_of_two(s);
    proof {
        lemma_pow2_127();
    }
    if x >= 0 {
        let d: u128 = (x as u128) / p;
        proof {
            lemma_div_is_ordered_by_denominator(x as int, 1, p as int);
            lemma_div_basics(x as int);
        }
        d as i128
    } else {
        let q: u128 = (-1 - x) as u128;
        let d: u128 = q / p;
        proof {
            lemma_negative_mod(x as int, p as int);
            lemma_div_is_ordered_by_denominator(q as int, 1, p as int);
            lemma_div_basics(q as int);
        }
        -1 - (d as i128)
    }
}

/// The remainder of `x` modulo `2^s`: its `s` lowest binary digits.
pub fn low_bits(x: Element, s: usize) -> (r: Element)
    requires
        s <= 126,
    ensures
        r == x as int % (pow2(s as nat) as int),
        0 <= r < pow2(s as nat),
{
    let p = power_of_two(s);
    proof {
        lemma_pow2_127();
        lemma_pow2_mono(s as nat, 126);
    }
    if x >= 0 {
        ((x as u128) % p) as i128
    } else {
        let q: u128 = (-1 - x) as u128;
        proof {
            lemma_negative_mod(x as int, p as int);
        }
        (p - 1 - q % p) as i128
    }
}

/// `x` brought into the range of quantised values.
pub fn clamp(x: Element) -> (r: Element)
    ensures
        r == clamped(x as int),
{
    if x < MIN {
        MIN
    } else if x > MAX {
        MAX
    } else {
        x
    }
}

} // verus!
