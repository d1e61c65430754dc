//! The number-theoretic Fourier transform over the field, and products of polynomials by it.
use crate::arith::{flog2, ilog2, is_pow2, lemma_flog2_pow2, lemma_pow2_step, lemma_pow2_zero};
use crate::commit::lemma_fsum_pairs;
use crate::field::{
    Fe, GoldilocksExt2, fadd, fint, finv, finvertible, fmul, fneg, fone, fpow, fsub, fsum, fviews,
    fzero, is_fe, lemma_fadd_zero, lemma_fe_closed, lemma_fint, lemma_finv, lemma_fmul_assoc,
    lemma_fmul_comm, lemma_fmul_distr, lemma_fmul_neg, lemma_fmul_one, lemma_fmul_swap,
    lemma_fmul_zero, lemma_fpow_add, lemma_fpow_fe, lemma_fpow_mul, lemma_fpow_mul_base,
    lemma_fpow_one, lemma_fsub, lemma_fsum_add, lemma_fsum_eq, lemma_fsum_fe, lemma_fsum_scale,
    lemma_fsum_single, lemma_fsum_swap, lemma_fviews_fe, modulus,
};
use vstd::arithmetic::div_mod::*;
use vstd::arithmetic::mul::*;
use vstd::arithmetic::power2::*;
use vstd::prelude::*;

verus! {

/// A root of unity of order `2^32` in the Goldilocks field.
pub const ROOT_OF_UNITY: u64 = 1753635133440165772;

/// The base-two logarithm of the order of `ROOT_OF_UNITY`.
pub const TWO_ADICITY: usize = 32;

/// The root of unity of order `2^n` that the transforms of size `2^n` use.
pub open spec fn omega(n: nat) -> Fe {
    fpow(fint(ROOT_OF_UNITY as int), pow2((32 - n) as nat))
}

/// Entry `k` of the Fourier transform of `v` with the root `w`.
pub open spec fn dft(v: Seq<Fe>, w: Fe, k: nat) -> Fe {
    fsum(v.len(), |i: int| fmul(v[i], fpow(w, (i * k) as nat)))
}

/// The Fourier transform of a vector of `2^n` entries.
pub open spec fn fft_of(v: Seq<Fe>, n: nat) -> Seq<Fe> {
    Seq::new(v.len(), |k: int| dft(v, omega(n), k as nat))
}

/// The inverse Fourier transform of a vector of `2^n` entries.
pub open spec fn ifft_of(v: Seq<Fe>, n: nat) -> Seq<Fe> {
    Seq::new(
        v.len(),
        |k: int| fmul(finv(fint(pow2(n) as int)), dft(v, finv(omega(n)), k as nat)),
    )
}

/// The product of two vectors, entry by entry.
pub open spec fn fmul_seq(x: Seq<Fe>, y: Seq<Fe>) -> Seq<Fe> {
    Seq::new(x.len(), |k: int| fmul(x[k], y[k]))
}

/// Coefficient `m` of the product of the polynomials with the coefficients `x` and `y`, in which
/// exponents are taken modulo the number of coefficients.
pub open spec fn cyclic(x: Seq<Fe>, y: Seq<Fe>, m: int) -> Fe {
    fsum(x.len(), |b: int| fmul(x[(m - b) % (x.len() as int)], y[b]))
}

// ---------------------------------------------------------------------------------------
// Roots of unity
// ---------------------------------------------------------------------------------------

proof fn lemma_root_step(k: nat, a: int, b: int)
    requires
        fpow(fint(ROOT_OF_UNITY as int), pow2(k)) == fint(a),
        (a * a) % modulus() == b,
    ensures
        fpow(fint(ROOT_OF_UNITY as int), pow2(k + 1)) == fint(b),
{
    let g = fint(ROOT_OF_UNITY as int);
    lemma_pow2_step(k);
    lemma_fpow_add(g, pow2(k), pow2(k));
    lemma_fint(a, a);
    assert(b % modulus() == b) by {
        lemma_mod_twice(a * a, modulus());
    }
}

pub proof fn lemma_root_half()
    ensures
        fpow(fint(ROOT_OF_UNITY as int), pow2(31)) == fint(-1),
{
    let g = fint(ROOT_OF_UNITY as int);
    lemma_pow2_zero();
    lemma_fint(ROOT_OF_UNITY as int, 1);
    lemma_fmul_one(g);
    assert(fpow(g, 0) == fone());
    assert(fpow(g, 1) == fmul(fpow(g, 0), g));
    lemma_root_step(0, 0x185629dcda58878c, 0x400a7f755588e659);
    lemma_root_step(1, 0x400a7f755588e659, 0x7e9bd009b86a0845);
    lemma_root_step(2, 0x7e9bd009b86a0845, 0xdfa8c93ba46d2666);
    lemma_root_step(3, 0xdfa8c93ba46d2666, 0x59049500004a4485);
    lemma_root_step(4, 0x59049500004a4485, 0x10d78dd8915a171d);
    lemma_root_step(5, 0x10d78dd8915a171d, 0xed41d05b78d6e286);
    lemma_root_step(6, 0xed41d05b78d6e286, 0x4bbaf5976ecfefd8);
    lemma_root_step(7, 0x4bbaf5976ecfefd8, 0x86cdcc31c307e171);
    lemma_root_step(8, 0x86cdcc31c307e171, 0xea9d5a1336fbc98b);
    lemma_root_step(9, 0xea9d5a1336fbc98b, 0x4b2a18ade67246b5);
    lemma_root_step(10, 0x4b2a18ade67246b5, 0xf502aef532322654);
    lemma_root_step(11, 0xf502aef532322654, 0x30ba2ecd5e93e76d);
    lemma_root_step(12, 0x30ba2ecd5e93e76d, 0xfbd41c6b8caa3302);
    lemma_root_step(13, 0xfbd41c6b8caa3302, 0x81281a7b05f9beac);
    lemma_root_step(14, 0x81281a7b05f9beac, 0xabd0a6e8aa3d8a0e);
    lemma_root_step(15, 0xabd0a6e8aa3d8a0e, 0x54df9630bf79450e);
    lemma_root_step(16, 0x54df9630bf79450e, 0xf6b2cffe2306baac);
    lemma_root_step(17, 0xf6b2cffe2306baac, 0xe0ee099310bba1e2);
    lemma_root_step(18, 0xe0ee099310bba1e2, 0x1544ef2335d17997);
    lemma_root_step(19, 0x1544ef2335d17997, 0xf2c35199959dfcb6);
    lemma_root_step(20, 0xf2c35199959dfcb6, 0x653b4801da1c8cf);
    lemma_root_step(21, 0x653b4801da1c8cf, 0x9d8f2ad78bfed972);
    lemma_root_step(22, 0x9d8f2ad78bfed972, 0x1905d02a5c411f4e);
    lemma_root_step(23, 0x1905d02a5c411f4e, 0xbf79143ce60ca966);
    lemma_root_step(24, 0xbf79143ce60ca966, 0xf80007ff08000001);
    lemma_root_step(25, 0xf80007ff08000001, 0x8000000000);
    lemma_root_step(26, 0x8000000000, 0x3fffffffc000);
    lemma_root_step(27, 0x3fffffffc000, 0xefffffff00000001);
    lemma_root_step(28, 0xefffffff00000001, 0xfffffffeff000001);
    lemma_root_step(29, 0xfffffffeff000001, 0x1000000000000);
    lemma_root_step(30, 0x1000000000000, 0xffffffff00000000);
}

/// Squaring the root of order `2^(n + 1)` gives that of order `2^n`, and the power `2^n` of the
/// former is minus one.
pub proof fn lemma_omega(n: nat)
    requires
        n < 32,
    ensures
        omega(n) == fmul(omega(n + 1), omega(n + 1)),
        fpow(omega(n + 1), pow2(n)) == fneg(fone()),
        is_fe(omega(n)),
        is_fe(omega(n + 1)),
{
    let g = fint(ROOT_OF_UNITY as int);
    let m = (31 - n) as nat;
    lemma_pow2_step(m);
    lemma_fpow_add(g, pow2(m), pow2(m));
    assert((32 - (n + 1)) as nat == m && (32 - n) as nat == m + 1);
    lemma_fpow_mul(g, pow2(m), pow2(n));
    lemma_pow2_adds(m, n);
    lemma_root_half();
    lemma_fint(1, 1);
    lemma_fpow_fe(g, pow2(m));
    lemma_fpow_fe(g, pow2(m + 1));
}

/// The root of order `2^n` to the power `2^n` is one.
pub proof fn lemma_omega_order(n: nat)
    requires
        n <= 32,
    ensures
        fpow(omega(n), pow2(n)) == fone(),
        is_fe(omega(n)),
{
    if n == 0 {
        lemma_pow2_zero();
        let g = fint(ROOT_OF_UNITY as int);
        lemma_omega(0);
        lemma_fpow_one(1);
        // omega(0) is the square of omega(1), which is minus one
        lemma_fmul_one(omega(1));
        assert(fpow(omega(1), 1) == fmul(fpow(omega(1), 0), omega(1)));
        lemma_fint(-1, -1);
        lemma_fint(1, 1);
        assert(omega(0) == fone());
    } else {
        let m = (n - 1) as nat;
        lemma_omega(m);
        lemma_pow2_step(m);
        lemma_fpow_add(omega(n), pow2(m), pow2(m));
        lemma_fint(1, 1);
        lemma_fint(-1, -1);
    }
}

/// The inverse of the root of order `2^n` is its power `2^n - 1`.
pub proof fn lemma_omega_inverse(n: nat)
    requires
        n <= 32,
    ensures
        finvertible(omega(n)),
        finv(omega(n)) == fpow(omega(n), (pow2(n) - 1) as nat),
{
    lemma_pow2_pos(n);
    lemma_omega_order(n);
    let w = omega(n);
    let m = (pow2(n) - 1) as nat;
    assert(fpow(w, pow2(n)) == fmul(fpow(w, m), w));
    lemma_fmul_comm(fpow(w, m), w);
    lemma_fpow_fe(w, m);
    lemma_finv(w, fpow(w, m));
}

/// Powers of two have inverses in the field.
pub proof fn lemma_pow2_invertible(n: nat)
    ensures
        finvertible(fint(pow2(n) as int)),
    decreases n,
{
    let half: int = 0x7FFFFFFF80000001;
    lemma_fint(1, 1);
    if n == 0 {
        lemma_pow2_zero();
        lemma_finv(fone(), fone());
    } else {
        let m = (n - 1) as nat;
        lemma_pow2_invertible(m);
        lemma_pow2_step(m);
        let x = fint(pow2(m) as int);
        let y = choose|y: Fe| is_fe(y) && #[trigger] fmul(x, y) == fone();
        lemma_fint(2, pow2(m) as int);
        lemma_fint(2, half);
        assert(fint(2 * half) == fone());
        lemma_fmul_swap(fint(2), x, fint(half), y);
        lemma_fe_closed(fint(half), y);
        lemma_fmul_one(fone());
        lemma_finv(fint(pow2(n) as int), fmul(fint(half), y));
    }
}

/// A root of order `2^n` to a power that is not a multiple of `2^n`: its powers add up to zero.
/// To a multiple of `2^n`: they add up to `2^n`.
pub proof fn lemma_power_sum(n: nat, e: nat)
    requires
        n <= 32,
    ensures
        fsum(pow2(n), |k: int| fpow(omega(n), e * (k as nat))) == if e % pow2(n) == 0 {
            fint(pow2(n) as int)
        } else {
            fzero()
        },
    decreases n,
{
    let w = omega(n);
    let f = |k: int| fpow(w, e * (k as nat));
    lemma_pow2_pos(n);
    if n == 0 {
        lemma_pow2_zero();
        assert(fsum(1, f) == fadd(fsum(0, f), f(0)));
        assert(e * 0nat == 0);
        lemma_fadd_zero(fone());
        lemma_fint(1, 1);
        assert(e % 1 == 0);
    } else {
        let m = (n - 1) as nat;
        let v = omega(m);
        lemma_omega(m);
        lemma_pow2_step(m);
        lemma_pow2_pos(m);
        lemma_power_sum(m, e);
        let g = |k: int| fpow(v, e * (k as nat));
        let z = fpow(w, e);
        let c = fadd(fone(), z);
        let h = |k: int| fmul(c, g(k));
        assert forall|k: int| 0 <= k < pow2(m) implies fadd(#[trigger] f(2 * k), f(2 * k + 1))
            == h(k) by {
            let q = k as nat;
            // f(2k) = (w^2)^(e k)
            lemma_fpow_mul_base(w, w, e * q);
            lemma_fpow_add(w, e * q, e * q);
            assert(e * (2 * q) == e * q + e * q) by (nonlinear_arith);
            assert(e * (2 * q + 1) == e * (2 * q) + e) by (nonlinear_arith);
            lemma_fpow_add(w, e * (2 * q), e);
            assert(f(2 * k) == g(k));
            lemma_fmul_distr(fone(), z, g(k));
            lemma_fpow_fe(v, e * q);
            lemma_fmul_one(g(k));
            lemma_fmul_comm(z, g(k));
        }
        lemma_fsum_pairs(pow2(m), f, h);
        lemma_fsum_scale(pow2(m), c, g);
        assert((|k: int| fmul(c, g(k))) =~= h);
        lemma_fpow_fe(w, e);
        if e % pow2(m) == 0 {
            let d = e / pow2(m);
            lemma_fundamental_div_mod(e as int, pow2(m) as int);
            lemma_fpow_mul(w, pow2(m), d);
            assert(z == fpow(fneg(fone()), d));
            lemma_sign_power(d);
            lemma_fint(1, 1);
            lemma_fint(1, -1);
            if d % 2 == 0 {
                assert(e % pow2(n) == 0) by {
                    lemma_fundamental_div_mod(d as int, 2);
                    assert(e == pow2(n) * (d / 2)) by (nonlinear_arith)
                        requires
                            e == pow2(m) * d,
                            d == 2 * (d / 2),
                            pow2(n) == 2 * pow2(m),
                    ;
                    lemma_mod_multiples_basic((d / 2) as int, pow2(n) as int);
                    lemma_mul_is_commutative(pow2(n) as int, (d / 2) as int);
                }
                lemma_fint(2, pow2(m) as int);
            } else {
                assert(e % pow2(n) != 0) by {
                    lemma_fundamental_div_mod(d as int, 2);
                    assert(e == (d / 2) * pow2(n) + pow2(m)) by (nonlinear_arith)
                        requires
                            e == pow2(m) * d,
                            d == 2 * (d / 2) + 1,
                            pow2(n) == 2 * pow2(m),
                    ;
                    lemma_mod_multiples_vanish((d / 2) as int, pow2(m) as int, pow2(n) as int);
                    lemma_small_mod(pow2(m), pow2(n));
                    lemma_mul_is_commutative(pow2(n) as int, (d / 2) as int);
                }
                lemma_fmul_zero(fint(pow2(m) as int));
            }
        } else {
            assert(e % pow2(n) != 0) by {
                if e % pow2(n) == 0 {
                    lemma_fundamental_div_mod(e as int, pow2(n) as int);
                    let d = e / pow2(n);
                    assert(e == (2 * d) * pow2(m)) by (nonlinear_arith)
                        requires
                            e == pow2(n) * d,
                            pow2(n) == 2 * pow2(m),
                    ;
                    lemma_mod_multiples_basic((2 * d) as int, pow2(m) as int);
                }
            }
            lemma_fmul_zero(c);
        }
    }
}

proof fn lemma_sign_power(d: nat)
    ensures
        fpow(fneg(fone()), d) == if d % 2 == 0 {
            fone()
        } else {
            fint(-1)
        },
    decreases d,
{
    lemma_fint(1, 1);
    lemma_fint(-1, -1);
    lemma_fint(1, -1);
    if d > 0 {
        lemma_sign_power((d - 1) as nat);
    }
}

// ---------------------------------------------------------------------------------------
// The product theorem
// ---------------------------------------------------------------------------------------

/// The term of the inputs `a` and `b` in entry `k` of the product of two transforms, times the
/// power `-k m` of the root.
spec fn prod_term(x: Seq<Fe>, y: Seq<Fe>, n: nat, m: int, k: int, a: int, b: int) -> Fe {
    fmul(fmul(x[a], y[b]), fpow(omega(n), ((a + b + (pow2(n) - 1) * m) as nat) * (k as nat)))
}

spec fn prod_row(x: Seq<Fe>, y: Seq<Fe>, n: nat, m: int, k: int, b: int) -> Fe {
    fsum(pow2(n), |a: int| prod_term(x, y, n, m, k, a, b))
}

/// Transforming two vectors, multiplying the transforms entry by entry and transforming back
/// multiplies the vectors as polynomials, with exponents modulo their length.
pub proof fn law_fft_product(x: Seq<Fe>, y: Seq<Fe>, n: nat, m: int)
    requires
        n <= 32,
        x.len() == pow2(n),
        y.len() == pow2(n),
        0 <= m < pow2(n),
    ensures
        ifft_of(fmul_seq(fft_of(x, n), fft_of(y, n)), n)[m] == cyclic(x, y, m),
{
    let len = pow2(n);
    let w = omega(n);
    let wi = finv(w);
    let prod = fmul_seq(fft_of(x, n), fft_of(y, n));
    lemma_omega_inverse(n);
    lemma_pow2_pos(n);
    let scale = finv(fint(len as int));
    lemma_pow2_invertible(n);
    let back = |k: int| fmul(prod[k], fpow(wi, (k * m) as nat));
    let row = |k: int, b: int| prod_row(x, y, n, m, k, b);
    let back2 = |k: int| fsum(len, |b: int| row(k, b));
    assert forall|k: int| 0 <= k < len implies #[trigger] back(k) == back2(k) by {
        lemma_product_entry(x, y, n, k, m);
        assert((|b: int| row(k, b)) =~= (|b: int| prod_row(x, y, n, m, k, b)));
    }
    lemma_fsum_eq(len, back, back2);
    // exchange the sums
    lemma_fsum_swap(len, len, row);
    let per_b = |b: int| fsum(len, |k: int| row(k, b));
    // each b contributes len * x[(m - b) mod len] * y[b]
    let want = |b: int| fmul(x[(m - b) % (len as int)], y[b]);
    let scaled = |b: int| fmul(fint(len as int), want(b));
    assert forall|b: int| 0 <= b < len implies #[trigger] per_b(b) == scaled(b) by {
        lemma_product_collect(x, y, n, m, b);
        assert((|k: int| row(k, b)) =~= (|k: int| prod_row(x, y, n, m, k, b)));
    }
    lemma_fsum_eq(len, per_b, scaled);
    lemma_fsum_scale(len, fint(len as int), want);
    let c = cyclic(x, y, m);
    assert((|b: int| fmul(x[(m - b) % (x.len() as int)], y[b])) =~= want);
    assert(dft(prod, wi, m as nat) == fmul(fint(len as int), c)) by {
        assert(prod.len() == len);
        assert((|i: int| fmul(prod[i], fpow(wi, (i * (m as nat)) as nat))) =~= back);
    }
    lemma_fsum_fe(len, want);
    lemma_fmul_assoc(scale, fint(len as int), c);
    lemma_fmul_comm(scale, fint(len as int));
    assert(fmul(fint(len as int), scale) == fone());
    lemma_fmul_one(c);
}

/// One entry of the product of two transforms, times the power of the inverse root, as a double
/// sum.
proof fn lemma_product_entry(x: Seq<Fe>, y: Seq<Fe>, n: nat, k: int, m: int)
    requires
        n <= 32,
        x.len() == pow2(n),
        y.len() == pow2(n),
        0 <= m < pow2(n),
        0 <= k < pow2(n),
    ensures
        fmul(
            fmul(dft(x, omega(n), k as nat), dft(y, omega(n), k as nat)),
            fpow(finv(omega(n)), (k * m) as nat),
        ) == fsum(pow2(n), |b: int| prod_row(x, y, n, m, k, b)),
{
    let len = pow2(n);
    let w = omega(n);
    lemma_pow2_pos(n);
    let q = fpow(finv(w), (k * m) as nat);
    let fx = |i: int| fmul(x[i], fpow(w, (i * (k as nat)) as nat));
    let fy = |i: int| fmul(y[i], fpow(w, (i * (k as nat)) as nat));
    let dx = fsum(len, fx);
    let dy = fsum(len, fy);
    // (dx dy) q = sum over b of (dx q) fy(b)
    let c = fmul(dx, q);
    let inner_b = |b: int| fmul(c, fy(b));
    lemma_fsum_scale(len, c, fy);
    lemma_fmul_assoc(dx, dy, q);
    lemma_fmul_comm(dy, q);
    lemma_fmul_assoc(dx, q, dy);
    let goal_b = |b: int| prod_row(x, y, n, m, k, b);
    assert forall|b: int| 0 <= b < len implies #[trigger] inner_b(b) == goal_b(b) by {
        let d = fmul(q, fy(b));
        lemma_fmul_assoc(dx, q, fy(b));
        lemma_fmul_comm(dx, d);
        let inner_a = |a: int| fmul(d, fx(a));
        lemma_fsum_scale(len, d, fx);
        let goal_a = |a: int| prod_term(x, y, n, m, k, a, b);
        assert forall|a: int| 0 <= a < len implies #[trigger] inner_a(a) == goal_a(a) by {
            lemma_exponents(w, n, a, b, k, m);
            let pa = fpow(w, (a * (k as nat)) as nat);
            let pb = fpow(w, (b * (k as nat)) as nat);
            // (q (y pb)) (x pa) = (x y) ((pa pb) q)
            let xa = x[a];
            let yb = y[b];
            lemma_fmul_comm(fmul(q, fmul(yb, pb)), fmul(xa, pa));
            lemma_fmul_comm(q, fmul(yb, pb));
            lemma_fmul_assoc(yb, pb, q);
            lemma_fmul_swap(xa, pa, yb, fmul(pb, q));
            lemma_fmul_assoc(pa, pb, q);
        }
        lemma_fsum_eq(len, inner_a, goal_a);
    }
    lemma_fsum_eq(len, inner_b, goal_b);
}

proof fn lemma_exponents(w: Fe, n: nat, a: int, b: int, k: int, m: int)
    requires
        n <= 32,
        w == omega(n),
        0 <= a,
        0 <= b,
        0 <= k,
        0 <= m,
    ensures
        fmul(
            fmul(fpow(w, (a * (k as nat)) as nat), fpow(w, (b * (k as nat)) as nat)),
            fpow(finv(w), (k * m) as nat),
        ) == fpow(w, ((a + b + (pow2(n) - 1) * m) as nat) * (k as nat)),
{
    let l = (pow2(n) - 1) as nat;
    lemma_omega_inverse(n);
    lemma_pow2_pos(n);
    assert(a * k >= 0 && b * k >= 0 && k * m >= 0 && l * m >= 0) by (nonlinear_arith)
        requires
            0 <= a,
            0 <= b,
            0 <= k,
            0 <= m,
            0 <= l,
    ;
    let ak = (a * k) as nat;
    let bk = (b * k) as nat;
    let km = (k * m) as nat;
    lemma_fpow_mul(w, l, km);
    lemma_fpow_add(w, ak, bk);
    lemma_fpow_add(w, ak + bk, l * km);
    let t = (a + b + (pow2(n) - 1) * m) as nat;
    assert(ak + bk + l * km == t * (k as nat)) by (nonlinear_arith)
        requires
            ak == a * k,
            bk == b * k,
            km == k * m,
            t == a + b + l * m,
            k >= 0,
    ;
}

/// Of the double sum only the terms with `a + b = m` modulo the length are left.
proof fn lemma_product_collect(x: Seq<Fe>, y: Seq<Fe>, n: nat, m: int, b: int)
    requires
        n <= 32,
        x.len() == pow2(n),
        y.len() == pow2(n),
        0 <= m < pow2(n),
        0 <= b < pow2(n),
    ensures
        fsum(pow2(n), |k: int| prod_row(x, y, n, m, k, b)) == fmul(
            fint(pow2(n) as int),
            fmul(x[(m - b) % (pow2(n) as int)], y[b]),
        ),
{
    let len = pow2(n);
    let w = omega(n);
    lemma_pow2_pos(n);
    let term = |k: int, a: int| prod_term(x, y, n, m, k, a, b);
    lemma_fsum_swap(len, len, term);
    let lhs = |k: int| prod_row(x, y, n, m, k, b);
    let lhs2 = |k: int| fsum(len, |a: int| term(k, a));
    assert forall|k: int| 0 <= k < len implies #[trigger] lhs(k) == lhs2(k) by {
        assert((|a: int| term(k, a)) =~= (|a: int| prod_term(x, y, n, m, k, a, b)));
    }
    lemma_fsum_eq(len, lhs, lhs2);
    let rhs = |a: int| fsum(len, |k: int| term(k, a));
    let pick = (m - b) % (len as int);
    assert forall|a: int| 0 <= a < len implies #[trigger] rhs(a) == if a == pick {
        fmul(fint(len as int), fmul(x[pick], y[b]))
    } else {
        fzero()
    } by {
        assert((len - 1) * m >= 0) by (nonlinear_arith)
            requires
                len >= 1,
                m >= 0,
        ;
        let e = (a + b + (len - 1) * m) as nat;
        let c = fmul(x[a], y[b]);
        let pw = |k: int| fpow(w, e * (k as nat));
        lemma_fsum_scale(len, c, pw);
        assert((|k: int| fmul(c, pw(k))) =~= (|k: int| term(k, a)));
        lemma_power_sum(n, e);
        assert((|k: int| fpow(omega(n), e * (k as nat))) =~= pw);
        lemma_exponent_zero(len, a, b, m);
        lemma_fmul_zero(c);
        lemma_fmul_comm(c, fint(len as int));
    }
    lemma_fe_closed(fint(len as int), fmul(x[pick], y[b]));
    lemma_mod_bound(m - b, len as int);
    lemma_fsum_single(len, pick, rhs);
}

proof fn lemma_exponent_zero(len: nat, a: int, b: int, m: int)
    requires
        len > 0,
        0 <= a < len,
        0 <= b < len,
        0 <= m < len,
        (len - 1) * m >= 0,
    ensures
        ((a + b + (len - 1) * m) as nat) % len == 0 <==> a == (m - b) % (len as int),
{
    let l = len as int;
    // a + b + (l - 1) m = m l + (a + b - m)
    assert(a + b + (l - 1) * m == l * m + (a + b - m)) by (nonlinear_arith);
    lemma_mod_multiples_vanish(m, a + b - m, l);
    let d = a + b - m;
    // -l < d < 2 l, so d is a multiple of l only if it is 0 or l
    if d < 0 {
        lemma_mod_add_multiples_vanish(d, l);
        lemma_small_mod((d + l) as nat, len);
    } else if d < l {
        lemma_small_mod(d as nat, len);
    } else {
        lemma_mod_sub_multiples_vanish(d, l);
        lemma_small_mod((d - l) as nat, len);
    }
    if m >= b {
        lemma_small_mod((m - b) as nat, len);
    } else {
        lemma_mod_add_multiples_vanish(m - b, l);
        lemma_small_mod((m - b + l) as nat, len);
    }
}

// ---------------------------------------------------------------------------------------
// The fast transform
// ---------------------------------------------------------------------------------------

/// The transform of `2h` entries from the transforms of the entries at even and odd places.
proof fn lemma_butterfly(v: Seq<Fe>, w: Fe, h: nat, k: nat)
    requires
        v.len() == 2 * h,
        h > 0,
        fpow(w, h) == fneg(fone()),
    ensures
        ({
            let even = Seq::new(h, |j: int| v[2 * j]);
            let odd = Seq::new(h, |j: int| v[2 * j + 1]);
            let w2 = fmul(w, w);
            let o = fmul(fpow(w, k), dft(odd, w2, k));
            &&& dft(v, w, k) == fadd(dft(even, w2, k), o)
            &&& dft(v, w, k + h) == fsub(dft(even, w2, k), o)
        }),
{
    let even = Seq::new(h, |j: int| v[2 * j]);
    let odd = Seq::new(h, |j: int| v[2 * j + 1]);
    let w2 = fmul(w, w);
    lemma_butterfly_half(v, w, h, k);
    lemma_butterfly_half(v, w, h, k + h);
    // moving k by h leaves the powers of w2 and changes the sign of w^k
    let ek = |j: int| fmul(even[j], fpow(w2, (j * k) as nat));
    let ekh = |j: int| fmul(even[j], fpow(w2, (j * (k + h)) as nat));
    let ok = |j: int| fmul(odd[j], fpow(w2, (j * k) as nat));
    let okh = |j: int| fmul(odd[j], fpow(w2, (j * (k + h)) as nat));
    assert(fpow(w2, h) == fone()) by {
        lemma_fpow_mul_base(w, w, h);
        lemma_fint(1, 1);
        lemma_fint(-1, -1);
    }
    assert forall|j: int| 0 <= j < h implies #[trigger] ek(j) == ekh(j) && ok(j) == okh(j) by {
        let q = j as nat;
        assert(q * (k + h) == q * k + h * q) by (nonlinear_arith);
        lemma_fpow_add(w2, q * k, h * q);
        lemma_fpow_mul(w2, h, q);
        lemma_fpow_one(q);
        lemma_fpow_fe(w2, q * k);
        lemma_fmul_one(fpow(w2, q * k));
    }
    assert forall|j: int| 0 <= j < h implies #[trigger] ok(j) == okh(j) by {
        assert(ek(j) == ekh(j));
    }
    lemma_fsum_eq(h, ek, ekh);
    lemma_fsum_eq(h, ok, okh);
    lemma_fpow_add(w, k, h);
    let d = dft(odd, w2, k);
    lemma_fmul_neg(fpow(w, k), fone());
    lemma_fpow_fe(w, k);
    lemma_fmul_one(fpow(w, k));
    lemma_fmul_neg(fpow(w, k), d);
    lemma_fsub(dft(even, w2, k), fmul(fpow(w, k), d));
    assert(dft(even, w2, k + h) == dft(even, w2, k));
    assert(dft(odd, w2, k + h) == d);
}

proof fn lemma_butterfly_half(v: Seq<Fe>, w: Fe, h: nat, k: nat)
    requires
        v.len() == 2 * h,
    ensures
        ({
            let even = Seq::new(h, |j: int| v[2 * j]);
            let odd = Seq::new(h, |j: int| v[2 * j + 1]);
            let w2 = fmul(w, w);
            dft(v, w, k) == fadd(dft(even, w2, k), fmul(fpow(w, k), dft(odd, w2, k)))
        }),
{
    let even = Seq::new(h, |j: int| v[2 * j]);
    let odd = Seq::new(h, |j: int| v[2 * j + 1]);
    let w2 = fmul(w, w);
    let f = |i: int| fmul(v[i], fpow(w, (i * k) as nat));
    let fe = |j: int| fmul(even[j], fpow(w2, (j * k) as nat));
    let fo = |j: int| fmul(odd[j], fpow(w2, (j * k) as nat));
    let c = fpow(w, k);
    let co = |j: int| fmul(c, fo(j));
    let g = |j: int| fadd(fe(j), co(j));
    assert forall|j: int| 0 <= j < h implies fadd(#[trigger] f(2 * j), f(2 * j + 1)) == g(j) by {
        let q = j as nat;
        lemma_fpow_mul_base(w, w, q * k);
        lemma_fpow_add(w, q * k, q * k);
        assert((2 * q) * k == q * k + q * k) by (nonlinear_arith);
        assert((2 * q + 1) * k == (2 * q) * k + k) by (nonlinear_arith);
        lemma_fpow_add(w, (2 * q) * k, k);
        let o = odd[j];
        let pw = fpow(w2, q * k);
        assert(f(2 * j) == fe(j));
        assert(f(2 * j + 1) == fmul(o, fmul(pw, c)));
        lemma_fmul_assoc(o, pw, c);
        lemma_fmul_comm(fmul(o, pw), c);
    }
    lemma_fsum_pairs(h, f, g);
    lemma_fsum_add(h, fe, co);
    assert((|j: int| fadd(fe(j), co(j))) =~= g);
    lemma_fsum_scale(h, c, fo);
    assert((|j: int| fmul(c, fo(j))) =~= co);
}

/// The root of unity of order `2^n`.
pub fn get_root_of_unity(n: usize) -> (r: GoldilocksExt2)
    requires
        n <= TWO_ADICITY,
    ensures
        r@ == omega(n as nat),
{
    let mut rou = GoldilocksExt2::from_u64(ROOT_OF_UNITY);
    let mut i: usize = 0;
    proof {
        let g = fint(ROOT_OF_UNITY as int);
        lemma_pow2_zero();
        lemma_fint(ROOT_OF_UNITY as int, 1);
        lemma_fmul_one(g);
        assert(fpow(g, 1) == fmul(fpow(g, 0), g));
    }
    while i < TWO_ADICITY - n
        invariant
            n <= TWO_ADICITY,
            i <= TWO_ADICITY - n,
            rou@ == fpow(fint(ROOT_OF_UNITY as int), pow2(i as nat)),
        decreases TWO_ADICITY - n - i,
    {
        proof {
            lemma_pow2_step(i as nat);
            lemma_fpow_add(
                fint(ROOT_OF_UNITY as int),
                pow2(i as nat),
                pow2(i as nat),
            );
        }
        rou = rou.times(rou);
        i = i + 1;
    }
    rou
}

/// The Fourier transform of `v` with the root `w`, by halving.
fn transform(v: &[GoldilocksExt2], w: GoldilocksExt2, Ghost(n): Ghost<nat>) -> (r: Vec<
    GoldilocksExt2,
>)
    requires
        v@.len() == pow2(n),
        n > 0 ==> fpow(w@, pow2((n - 1) as nat)) == fneg(fone()),
    ensures
        r@.len() == v@.len(),
        forall|k: int| 0 <= k < r@.len() ==> #[trigger] r[k]@ == dft(fviews(v@), w@, k as nat),
    decreases n,
{
    proof {
        lemma_pow2_zero();
        lemma_pow2_pos(n);
    }
    let ghost vv = fviews(v@);
    if v.len() == 1 {
        let mut r: Vec<GoldilocksExt2> = Vec::new();
        r.push(v[0]);
        proof {
            let f = |i: int| fmul(vv[i], fpow(w@, (i * 0nat) as nat));
            assert(fsum(1, f) == fadd(fsum(0, f), f(0)));
            lemma_fviews_fe(v@);
            lemma_fmul_one(vv[0]);
            lemma_fadd_zero(vv[0]);
        }
        return r;
    }
    proof {
        if n == 0 {
            assert(false);
        }
        lemma_pow2_step((n - 1) as nat);
        lemma_pow2_pos((n - 1) as nat);
    }
    let ghost m = (n - 1) as nat;
    let h = v.len() / 2;
    let mut even: Vec<GoldilocksExt2> = Vec::new();
    let mut odd: Vec<GoldilocksExt2> = Vec::new();
    let mut j: usize = 0;
    while j < h
        invariant
            v@.len() == 2 * h,
            2 * h <= usize::MAX,
            j <= h,
            even.len() == j,
            odd.len() == j,
            forall|i: int| 0 <= i < j ==> #[trigger] even[i]@ == v[2 * i]@,
            forall|i: int| 0 <= i < j ==> #[trigger] odd[i]@ == v[2 * i + 1]@,
        decreases h - j,
    {
        even.push(v[2 * j]);
        odd.push(v[2 * j + 1]);
        j = j + 1;
    }
    let w2 = w.times(w);
    proof {
        if m > 0 {
            // (w^2)^(h/2) = w^h
            let q = pow2((m - 1) as nat);
            lemma_pow2_step((m - 1) as nat);
            lemma_fpow_mul_base(w@, w@, q);
            lemma_fpow_add(w@, q, q);
        }
    }
    let te = transform(even.as_slice(), w2, Ghost(m));
    let to = transform(odd.as_slice(), w2, Ghost(m));
    proof {
        assert(fviews(even@) =~= Seq::new(h as nat, |j: int| vv[2 * j])) by {
            assert forall|i: int| 0 <= i < h implies fviews(even@)[i] == vv[2 * i] by {
                assert(even[i]@ == v[2 * i]@);
            }
        }
        assert(fviews(odd@) =~= Seq::new(h as nat, |j: int| vv[2 * j + 1])) by {
            assert forall|i: int| 0 <= i < h implies fviews(odd@)[i] == vv[2 * i + 1] by {
                assert(odd[i]@ == v[2 * i + 1]@);
            }
        }
    }
    let mut lo: Vec<GoldilocksExt2> = Vec::new();
    let mut hi: Vec<GoldilocksExt2> = Vec::new();
    let mut cur = GoldilocksExt2::one();
    let mut k: usize = 0;
    while k < h
        invariant
            h > 0,
            v@.len() == 2 * h,
            vv == fviews(v@),
            k <= h,
            te.len() == h,
            to.len() == h,
            lo.len() == k,
            hi.len() == k,
            w2@ == fmul(w@, w@),
            fpow(w@, h as nat) == fneg(fone()),
            fviews(even@) == Seq::new(h as nat, |j: int| vv[2 * j]),
            fviews(odd@) == Seq::new(h as nat, |j: int| vv[2 * j + 1]),
            forall|i: int| 0 <= i < h ==> #[trigger] te[i]@ == dft(fviews(even@), w2@, i as nat),
            forall|i: int| 0 <= i < h ==> #[trigger] to[i]@ == dft(fviews(odd@), w2@, i as nat),
            cur@ == fpow(w@, k as nat),
            forall|i: int| 0 <= i < k ==> #[trigger] lo[i]@ == dft(vv, w@, i as nat),
            forall|i: int| 0 <= i < k ==> #[trigger] hi[i]@ == dft(vv, w@, (i + h) as nat),
        decreases h - k,
    {
        let o = cur.times(to[k]);
        proof {
            lemma_butterfly(vv, w@, h as nat, k as nat);
        }
        lo.push(te[k].plus(o));
        hi.push(te[k].minus(o));
        cur = cur.times(w);
        k = k + 1;
    }
    let mut r = lo;
    let mut i: usize = 0;
    while i < h
        invariant
            v@.len() == 2 * h,
            i <= h,
            r.len() == h + i,
            hi.len() == h,
            forall|j: int| 0 <= j < r.len() ==> #[trigger] r[j]@ == dft(vv, w@, j as nat),
            forall|i: int| 0 <= i < h ==> #[trigger] hi[i]@ == dft(vv, w@, (i + h) as nat),
        decreases h - i,
    {
        r.push(hi[i]);
        i = i + 1;
    }
    r
}

/// Replaces `v` by its Fourier transform, or by its inverse Fourier transform. The number of
/// entries is a power of two, `2^32` at most.
pub fn fft(v: &mut Vec<GoldilocksExt2>, inverse: bool)
    requires
        is_pow2(old(v)@.len()),
        flog2(old(v)@.len()) <= TWO_ADICITY,
    ensures
        final(v)@.len() == old(v)@.len(),
        !inverse ==> fviews(final(v)@) == fft_of(fviews(old(v)@), flog2(old(v)@.len())),
        inverse ==> fviews(final(v)@) == ifft_of(fviews(old(v)@), flog2(old(v)@.len())),
{
    let ghost start_v = fviews(v@);
    let ghost len = v@.len();
    proof {
        let e = choose|e: nat| v@.len() == #[trigger] pow2(e);
        lemma_flog2_pow2(e);
        lemma_pow2_pos(e);
    }
    let n = ilog2(v.len());
    let ghost gn = n as nat;
    let mut w = get_root_of_unity(n);
    proof {
        if gn > 0 {
            lemma_omega((gn - 1) as nat);
        }
        lemma_omega_inverse(gn);
        lemma_pow2_invertible(gn);
        lemma_omega_order(gn);
    }
    if inverse {
        proof {
            if gn > 0 {
                lemma_inverse_half(gn);
            }
        }
        w = match w.invert() {
            Some(x) => x,
            None => w,
        };
    }
    let mut r = transform(v.as_slice(), w, Ghost(gn));
    if inverse {
        let s = GoldilocksExt2::from_u64(v.len() as u64);
        let scale = match s.invert() {
            Some(x) => x,
            None => s,
        };
        let mut i: usize = 0;
        while i < r.len()
            invariant
                i <= r.len(),
                r.len() == len,
                scale@ == finv(fint(len as int)),
                forall|j: int|
                    0 <= j < i ==> #[trigger] r[j]@ == fmul(scale@, dft(start_v, w@, j as nat)),
                forall|j: int| i <= j < len ==> #[trigger] r[j]@ == dft(start_v, w@, j as nat),
            decreases r.len() - i,
        {
            let x = scale.times(r[i]);
            r.set(i, x);
            i = i + 1;
        }
        assert(fviews(r@) =~= ifft_of(start_v, gn));
    } else {
        assert(fviews(r@) =~= fft_of(start_v, gn));
    }
    *v = r;
}

/// The inverse root to half its order is minus one too.
pub proof fn lemma_inverse_half(n: nat)
    requires
        0 < n <= 32,
    ensures
        fpow(finv(omega(n)), pow2((n - 1) as nat)) == fneg(fone()),
{
    let m = (n - 1) as nat;
    let l = (pow2(n) - 1) as nat;
    let h = pow2(m);
    let w = omega(n);
    lemma_omega(m);
    lemma_omega_inverse(n);
    lemma_pow2_step(m);
    lemma_pow2_pos(m);
    lemma_fpow_mul(w, l, h);
    lemma_fpow_mul(w, h, l);
    lemma_mul_is_commutative(l as int, h as int);
    lemma_sign_power(l);
    lemma_fint(1, 1);
}

} // verus!
