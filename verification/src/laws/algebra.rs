//! What the operations of the field, and those on vectors of its elements, do.
use crate::arith::{lemma_pow2_step, lemma_pow2_zero};
use crate::commit::{fbits, inner};
use crate::fft::{
    ROOT_OF_UNITY, fft_of, fmul_seq, ifft_of, law_fft_product, lemma_omega_order, lemma_root_half,
    omega,
};
use crate::field::{
    Fe, GoldilocksExt2, all_fe, fadd, fint, finv, fmul, fneg, fone, fpow, fprod, fsub, fsum,
    fzero, is_fe, lemma_fint, lemma_finv, lemma_fmul_assoc, lemma_fmul_comm, lemma_fmul_one,
    lemma_fmul_zero, lemma_fpow_add, lemma_fpow_mul, lemma_fsum_fe, lemma_fsum_single, modulus,
};
use crate::prime::law_invertible;
use crate::quantization::{Element, centered, fints, law_centered};
use crate::sums::isum;
use crate::vector::{Transcript, draws_in_turn};
use vstd::arithmetic::div_mod::*;
use vstd::arithmetic::mul::*;
use vstd::arithmetic::power2::*;
use vstd::prelude::*;
use vstd::std_specs::cmp::PartialEqSpec;

verus! {

/// The field is that of the sums `a + b X` with `X * X = 7`, whose coefficients count modulo the
/// prime `2^64 - 2^32 + 1`.
pub proof fn law_field(a: int, b: int, c: int, d: int)
    ensures
        ({
            let p = 0x1_0000_0000_0000_0000int - 0x1_0000_0000 + 1;
            &&& modulus() == p
            &&& fzero() == (0int, 0int)
            &&& fone() == (1int, 0int)
            &&& fint(a) == (a % p, 0int)
            &&& fadd((a, b), (c, d)) == ((a + c) % p, (b + d) % p)
            &&& fsub((a, b), (c, d)) == ((a - c) % p, (b - d) % p)
            &&& fneg((a, b)) == ((-a) % p, (-b) % p)
            &&& fmul((a, b), (c, d)) == ((a * c + 7 * (b * d)) % p, (a * d + b * c) % p)
        }),
{
    reveal(fadd);
    reveal(fsub);
    reveal(fneg);
    reveal(fmul);
}

/// Dividing by a value that is not zero undoes multiplying by it.
pub proof fn law_division(x: Fe, y: Fe)
    requires
        is_fe(x),
        is_fe(y),
        y != fzero(),
    ensures
        fmul(fmul(x, y), finv(y)) == x,
        fmul(fmul(x, finv(y)), y) == x,
{
    law_invertible(y);
    let w = choose|w: Fe| is_fe(w) && #[trigger] fmul(y, w) == fone();
    lemma_finv(y, w);
    lemma_fmul_assoc(x, y, finv(y));
    lemma_fmul_assoc(x, finv(y), y);
    lemma_fmul_comm(finv(y), y);
    lemma_fmul_one(x);
}

/// Sums, products and powers in the field: nothing adds up to zero and multiplies to one, and each
/// further term is added or multiplied on.
pub proof fn law_field_sums(n: nat, f: spec_fn(int) -> Fe, x: Fe)
    ensures
        fsum(0, f) == fzero(),
        fsum(n + 1, f) == fadd(fsum(n, f), f(n as int)),
        fprod(0, f) == fone(),
        fprod(n + 1, f) == fmul(fprod(n, f), f(n as int)),
        fpow(x, 0) == fone(),
        fpow(x, n + 1) == fmul(fpow(x, n), x),
{
}

/// A sum of integers: nothing adds up to zero, and each further term is added on.
pub proof fn law_integer_sums(n: nat, f: spec_fn(int) -> int)
    ensures
        isum(0, f) == 0,
        isum(n + 1, f) == isum(n, f) + f(n as int),
{
}

/// A random linear combination is zero for no claims, and each further claim adds its product with
/// its challenge.
pub proof fn law_inner(n: nat, x: Seq<Fe>, y: Seq<Fe>)
    ensures
        inner(0, x, y) == fzero(),
        inner(n + 1, x, y) == fadd(inner(n, x, y), fmul(x[n as int], y[n as int])),
{
    let f = |i: int| fmul(x[i], y[i]);
    law_field_sums(n, f, fzero());
}

/// The images of values are the remainders modulo the prime.
pub proof fn law_images(s: Seq<Element>, i: int)
    requires
        0 <= i < s.len(),
    ensures
        fints(s).len() == s.len(),
        fints(s)[i] == (s[i] as int % modulus(), 0int),
        -(modulus() / 2) <= s[i] <= modulus() / 2 ==> centered(fints(s)[i].0) == s[i],
{
    if -(modulus() / 2) <= s[i] <= modulus() / 2 {
        law_centered(s[i] as int);
    }
}

/// The bits of a number as elements of the field: one or zero, as the number, with the lower bits
/// shifted out, is odd or even.
pub proof fn law_field_bits(x: nat, n: nat, t: int)
    requires
        0 <= t < n,
    ensures
        fbits(x, n).len() == n,
        fbits(x, n)[t] == fint((x as int / (pow2(t as nat) as int)) % 2),
{
    lemma_small_mod(0, modulus() as nat);
    lemma_small_mod(1, modulus() as nat);
}

/// The transform of a vector that is one in its first place and zero in all others is one
/// everywhere.
proof fn lemma_unit_transform(e: Seq<Fe>, n: nat, k: int)
    requires
        n <= 32,
        e.len() == pow2(n),
        0 <= k < pow2(n),
        e[0] == fone(),
        forall|i: int| 0 < i < e.len() ==> #[trigger] e[i] == fzero(),
    ensures
        fft_of(e, n)[k] == fone(),
{
    let w = omega(n);
    let f = |i: int| fmul(e[i], fpow(w, (i * (k as nat)) as nat));
    lemma_pow2_pos(n);
    assert(0 * (k as nat) == 0);
    lemma_fmul_one(fone());
    assert(f(0) == fone());
    assert forall|i: int| 0 <= i < e.len() && i != 0 implies #[trigger] f(i) == fzero() by {
        lemma_fmul_zero(fpow(w, (i * (k as nat)) as nat));
        lemma_fmul_comm(fzero(), fpow(w, (i * (k as nat)) as nat));
    }
    lemma_fsum_single(e.len(), 0, f);
}

/// Transforming a vector and transforming back gives the vector.
pub proof fn law_fft_inverse(x: Seq<Fe>, n: nat, m: int)
    requires
        n <= 32,
        x.len() == pow2(n),
        all_fe(x),
        0 <= m < pow2(n),
    ensures
        ifft_of(fft_of(x, n), n)[m] == x[m],
        ifft_of(fft_of(x, n), n).len() == x.len(),
{
    let len = pow2(n);
    let e = Seq::new(len, |i: int| if i == 0 { fone() } else { fzero() });
    let fx = fft_of(x, n);
    let fe = fft_of(e, n);
    assert(fmul_seq(fx, fe) =~= fx) by {
        assert forall|k: int| 0 <= k < len implies #[trigger] fmul_seq(fx, fe)[k] == fx[k] by {
            lemma_unit_transform(e, n, k);
            lemma_fsum_fe(x.len(), |i: int| fmul(x[i], fpow(omega(n), (i * (k as nat)) as nat)));
            lemma_fmul_one(fx[k]);
        }
    }
    law_fft_product(x, e, n, m);
    let f = |b: int| fmul(x[(m - b) % (x.len() as int)], e[b]);
    lemma_small_mod(m as nat, len);
    assert(is_fe(x[m]));
    lemma_fmul_one(x[m]);
    assert(f(0) == x[m]);
    assert forall|b: int| 0 <= b < len && b != 0 implies #[trigger] f(b) == fzero() by {
        lemma_fmul_zero(x[(m - b) % (x.len() as int)]);
    }
    lemma_fsum_single(len, 0, f);
}

/// The roots of unity: each is the square of the next, down from the one of order `2^32`.
pub proof fn law_roots(n: nat)
    requires
        n < 32,
    ensures
        omega(32) == fint(1753635133440165772),
        omega(n) == fmul(omega(n + 1), omega(n + 1)),
        fpow(omega(n), pow2(n)) == fone(),
        fpow(omega(n + 1), pow2(n)) == fint(-1),
{
    let g = fint(ROOT_OF_UNITY as int);
    lemma_pow2_zero();
    reveal_with_fuel(fpow, 2);
    lemma_fint(ROOT_OF_UNITY as int, 0);
    lemma_fmul_one(g);
    let k = (32 - (n + 1)) as nat;
    lemma_pow2_step(k);
    lemma_fpow_add(g, pow2(k), pow2(k));
    lemma_omega_order(n);
    lemma_root_half();
    lemma_pow2_adds(k, n);
    lemma_fpow_mul(g, pow2(k), pow2(n));
}

/// Two elements of the field are equal where their coefficients agree modulo the prime.
pub proof fn law_field_equality(a: GoldilocksExt2, b: GoldilocksExt2)
    ensures
        a.eq_spec(&b) <==> (a.c0 - b.c0) % modulus() == 0 && (a.c1 - b.c1) % modulus() == 0,
        a@ == b@ <==> a.eq_spec(&b),
{
    let p = modulus();
    lemma_equal_remainders(a.c0 as int, b.c0 as int, p);
    lemma_equal_remainders(a.c1 as int, b.c1 as int, p);
}

proof fn lemma_equal_remainders(x: int, y: int, p: int)
    requires
        p > 0,
    ensures
        (x - y) % p == 0 <==> x % p == y % p,
{
    lemma_mod_equivalence(x, y, p);
}

/// A transcript that hands out several challenges hands them out one after the other.
pub proof fn law_draws<T: Transcript>(
    before: T,
    s: Seq<GoldilocksExt2>,
    c: GoldilocksExt2,
    after: T,
)
    ensures
        draws_in_turn(before, Seq::empty(), after) <==> after == before,
        draws_in_turn(before, s.push(c), after) <==> exists|mid: T|
            draws_in_turn(before, s, mid) && #[trigger] T::draws(mid, c, after),
{
    assert(s.push(c).drop_last() =~= s);
    assert(s.push(c).last() == c);
}

} // verus!
