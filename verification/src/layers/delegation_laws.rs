//! Chains of sum-checks for the Fourier matrix that were made as they should be.
use crate::arith::{lemma_pow2_step, lemma_pow2_zero};
use crate::commit::{beta, eq1, fbits, identity, lemma_beta_fe, lemma_beta_pair, lemma_fsum_pairs};
use crate::fft::{
    dft, fft_of, ifft_of, lemma_inverse_half, lemma_omega, lemma_omega_inverse, lemma_omega_order,
    lemma_pow2_invertible, omega,
};
use crate::field::{
    Fe, all_fe, fadd, fint, finv, fmul, fneg, fone, fpow, fprod, fsub, fsum, fzero, is_fe,
    lemma_fadd_assoc, lemma_fadd_comm, lemma_fadd_swap, lemma_fadd_zero, lemma_fe_closed,
    lemma_fint, lemma_fmul_assoc, lemma_fmul_comm, lemma_fmul_distr, lemma_fmul_distr_sub,
    lemma_fmul_neg, lemma_fmul_one, lemma_fmul_swap, lemma_fmul_zero, lemma_fpow_add,
    lemma_fpow_fe, lemma_fpow_mul, lemma_fprod_eq, lemma_fprod_split, lemma_fsub, lemma_fsum_eq,
    lemma_fsum_fe, lemma_fsum_scale, lemma_fsum_swap, modulus,
};
use crate::layers::delegation::{
    chain_point, chain_step_ok, delegation_root, fft_chain_ok, ifft_chain_ok, phi, phi_product,
    root_powers,
};
use crate::layers::provable::{betas, term_at};
use crate::mle::{
    fix_high, law_betas_mle, law_fix_high, law_mle_at_vertex, lemma_mle_constant,
    lemma_mle_linear, mle,
};
use vstd::arithmetic::div_mod::*;
use vstd::arithmetic::mul::*;
use vstd::arithmetic::power2::*;
use vstd::prelude::*;

verus! {

// ---------------------------------------------------------------------------------------
// Powers
// ---------------------------------------------------------------------------------------

/// The first `n` powers of `g`.
pub open spec fn powers(g: Fe, n: nat) -> Seq<Fe> {
    Seq::new(n, |b: int| fpow(g, b as nat))
}

/// The value at `x` of the extension of the powers of `g`.
pub open spec fn powers_value(x: Seq<Fe>, g: Fe) -> Fe {
    fprod(
        x.len(),
        |i: int| fadd(fsub(fone(), x[i]), fmul(x[i], fpow(g, pow2(i as nat)))),
    )
}

/// `u (y b) + (u g) (x b)` is `(y + x g) (u b)`.
proof fn lemma_pair_factor(u: Fe, b: Fe, x: Fe, y: Fe, g: Fe)
    ensures
        fadd(fmul(u, fmul(y, b)), fmul(fmul(u, g), fmul(x, b))) == fmul(
            fadd(y, fmul(x, g)),
            fmul(u, b),
        ),
{
    let ub = fmul(u, b);
    lemma_fmul_distr(y, fmul(x, g), ub);
    lemma_fmul_assoc(u, y, b);
    lemma_fmul_comm(u, y);
    lemma_fmul_assoc(y, u, b);
    lemma_fmul_swap(u, g, x, b);
    lemma_fmul_swap(x, g, u, b);
    lemma_fmul_comm(u, x);
}

/// Peeling the first coordinate off the value of the powers.
proof fn lemma_powers_cons(x: Seq<Fe>, g: Fe)
    requires
        x.len() > 0,
        all_fe(x),
        is_fe(g),
    ensures
        powers_value(x, g) == fmul(
            fadd(fsub(fone(), x[0]), fmul(x[0], g)),
            powers_value(x.skip(1), fmul(g, g)),
        ),
{
    let n = (x.len() - 1) as nat;
    let s = x.skip(1);
    let h = fmul(g, g);
    let f = |i: int| fadd(fsub(fone(), x[i]), fmul(x[i], fpow(g, pow2(i as nat))));
    let t = |i: int| f(1 + i);
    let q = |i: int| fadd(fsub(fone(), s[i]), fmul(s[i], fpow(h, pow2(i as nat))));
    lemma_fprod_split(1, n, f);
    assert(1 + n == x.len());
    lemma_pow2_zero();
    lemma_square(g);
    assert(f(0) == fadd(fsub(fone(), x[0]), fmul(x[0], g)));
    assert(fprod(1, f) == fmul(fprod(0, f), f(0)));
    lemma_fe_closed(fsub(fone(), x[0]), fmul(x[0], g));
    lemma_fmul_one(f(0));
    assert forall|i: int| 0 <= i < n implies #[trigger] t(i) == q(i) by {
        lemma_pow2_step(i as nat);
        lemma_fpow_mul(g, 2, pow2(i as nat));
    }
    lemma_fprod_eq(n, t, q);
    assert((|i: int| f(1 + i)) =~= t);
}

proof fn lemma_square(g: Fe)
    requires
        is_fe(g),
    ensures
        fpow(g, 1) == g,
        fpow(g, 2) == fmul(g, g),
{
    reveal_with_fuel(fpow, 3);
    lemma_fmul_one(g);
}

/// The extension of the powers of `g`.
pub proof fn lemma_powers_mle(x: Seq<Fe>, g: Fe)
    requires
        all_fe(x),
        is_fe(g),
    ensures
        mle(powers(g, pow2(x.len())), x) == powers_value(x, g),
    decreases x.len(),
{
    let v = powers(g, pow2(x.len()));
    let f = |k: int| fmul(v[k], beta(x, k as nat));
    if x.len() == 0 {
        lemma_pow2_zero();
        lemma_fmul_one(fone());
        lemma_fadd_zero(fone());
        assert(fsum(1, f) == fadd(fsum(0, f), f(0)));
    } else {
        let n = (x.len() - 1) as nat;
        let s = x.skip(1);
        assert(s =~= x.subrange(1, x.len() as int));
        let h = fmul(g, g);
        lemma_fe_closed(g, g);
        lemma_powers_mle(s, h);
        lemma_powers_cons(x, g);
        lemma_pow2_step(n);
        let a = fadd(fsub(fone(), x[0]), fmul(x[0], g));
        let u = powers(h, pow2(n));
        let inner = |k: int| fmul(u[k], beta(s, k as nat));
        let outer = |k: int| fmul(a, inner(k));
        assert forall|k: int| 0 <= k < pow2(n) implies fadd(#[trigger] f(2 * k), f(2 * k + 1))
            == outer(k) by {
            lemma_beta_pair(x, k as nat);
            lemma_square(g);
            lemma_fpow_mul(g, 2, k as nat);
            assert(v[2 * k] == u[k]);
            assert(v[2 * k + 1] == fmul(v[2 * k], g));
            lemma_pair_factor(u[k], beta(s, k as nat), x[0], fsub(fone(), x[0]), g);
        }
        lemma_fsum_pairs(pow2(n), f, outer);
        lemma_fsum_scale(pow2(n), a, inner);
        assert((|k: int| fmul(a, inner(k))) =~= outer);
    }
}

/// At a vertex the extension of the powers is the power with the number of the vertex.
proof fn lemma_powers_vertex(b: nat, n: nat, g: Fe)
    requires
        b < pow2(n),
        is_fe(g),
    ensures
        powers_value(fbits(b, n), g) == fpow(g, b),
{
    let v = powers(g, pow2(n));
    assert(all_fe(v)) by {
        assert forall|i: int| 0 <= i < v.len() implies is_fe(#[trigger] v[i]) by {
            lemma_fpow_fe(g, i as nat);
        }
    }
    assert(all_fe(fbits(b, n)));
    law_mle_at_vertex(v, n, b);
    lemma_powers_mle(fbits(b, n), g);
}

// ---------------------------------------------------------------------------------------
// The polynomial of a step
// ---------------------------------------------------------------------------------------

/// The last `m` entries of `e` are `g` and its repeated squares.
pub open spec fn ends_in_squares(e: Seq<Fe>, m: nat, g: Fe) -> bool {
    &&& m <= e.len()
    &&& forall|i: int| 0 <= i < m ==> #[trigger] e[e.len() - m + i] == fpow(g, pow2(i as nat))
}

/// The values of the polynomial of a step over a hypercube of `m` dimensions.
pub open spec fn phi_row(m: nat, rand1: Fe, rand2: Fe, e: Seq<Fe>, first: bool) -> Seq<Fe> {
    Seq::new(pow2(m), |b: int| phi(fbits(b as nat, m), rand1, rand2, e, first))
}

spec fn phi_slope(rand1: Fe, rand2: Fe, first: bool) -> Fe {
    if first {
        fmul(fsub(fone(), rand2), rand1)
    } else {
        fmul(fsub(fone(), fmul(fint(2), rand2)), rand1)
    }
}

spec fn phi_offset(rand1: Fe, rand2: Fe, first: bool) -> Fe {
    if first {
        fmul(fsub(fone(), rand2), fsub(fone(), rand1))
    } else {
        fsub(fone(), rand1)
    }
}

/// The polynomial of a step is affine in the product.
proof fn lemma_phi_affine(r: Seq<Fe>, rand1: Fe, rand2: Fe, e: Seq<Fe>, first: bool, g: Fe)
    requires
        ends_in_squares(e, r.len(), g),
    ensures
        phi(r, rand1, rand2, e, first) == fadd(
            fmul(phi_slope(rand1, rand2, first), powers_value(r, g)),
            phi_offset(rand1, rand2, first),
        ),
{
    let p = phi_product(r, e);
    let f = |i: int| fadd(fsub(fone(), r[i]), fmul(r[i], e[e.len() - r.len() + i]));
    let h = |i: int| fadd(fsub(fone(), r[i]), fmul(r[i], fpow(g, pow2(i as nat))));
    assert forall|i: int| 0 <= i < r.len() implies #[trigger] f(i) == h(i) by {
        assert(e[e.len() - r.len() + i] == fpow(g, pow2(i as nat)));
    }
    lemma_fprod_eq(r.len(), f, h);
    let c = fsub(fone(), rand1);
    if first {
        let y = fsub(fone(), rand2);
        lemma_fmul_distr(c, fmul(rand1, p), y);
        lemma_fmul_assoc(y, rand1, p);
        lemma_fadd_comm(fmul(y, c), fmul(y, fmul(rand1, p)));
    } else {
        lemma_fadd_comm(c, fmul(phi_slope(rand1, rand2, first), p));
    }
}

/// The value at `x` of the extension of the polynomial of a step is what the verifier computes.
pub proof fn law_phi_extension(
    x: Seq<Fe>,
    rand1: Fe,
    rand2: Fe,
    e: Seq<Fe>,
    first: bool,
    g: Fe,
)
    requires
        all_fe(x),
        is_fe(g),
        ends_in_squares(e, x.len(), g),
    ensures
        mle(phi_row(x.len(), rand1, rand2, e, first), x) == phi(x, rand1, rand2, e, first),
{
    let m = x.len();
    let row = phi_row(m, rand1, rand2, e, first);
    let v = powers(g, pow2(m));
    let a = phi_slope(rand1, rand2, first);
    let c = phi_offset(rand1, rand2, first);
    let w = Seq::new(pow2(m), |b: int| c);
    assert forall|k: int| 0 <= k < pow2(m) implies #[trigger] row[k] == fadd(
        fmul(a, v[k]),
        w[k],
    ) by {
        lemma_phi_affine(fbits(k as nat, m), rand1, rand2, e, first, g);
        lemma_powers_vertex(k as nat, m, g);
    }
    lemma_mle_linear(a, v, w, row, x);
    lemma_fe_closed(fone(), rand1);
    lemma_fe_closed(fsub(fone(), rand2), fsub(fone(), rand1));
    lemma_mle_constant(c, w, x);
    lemma_powers_mle(x, g);
    lemma_phi_affine(x, rand1, rand2, e, first, g);
}

// ---------------------------------------------------------------------------------------
// The rows of the matrix
// ---------------------------------------------------------------------------------------

/// The vector that a chain is about after `k` steps: `s` times the row of the Fourier matrix with
/// the root `w` that belongs to the point `r`, without the first `k` coordinates of the point.
pub open spec fn delegated(s: Fe, r: Seq<Fe>, w: Fe, k: nat) -> Seq<Fe> {
    Seq::new(
        pow2((r.len() - k) as nat),
        |b: int| fmul(s, powers_value(r.skip(k as int), fpow(w, (pow2(k) * b) as nat))),
    )
}

/// `(1 - q) (c + z) + q (c - z)` is `c + (1 - 2 q) z`.
proof fn lemma_between(c: Fe, z: Fe, q: Fe)
    requires
        is_fe(c),
        is_fe(q),
    ensures
        fadd(fmul(fadd(c, z), fsub(fone(), q)), fmul(fadd(c, fneg(z)), q)) == fadd(
            fmul(fsub(fone(), fmul(fint(2), q)), z),
            c,
        ),
{
    let y = fsub(fone(), q);
    lemma_fmul_distr(c, z, y);
    lemma_fmul_distr(c, fneg(z), q);
    lemma_fadd_swap(fmul(c, y), fmul(z, y), fmul(c, q), fmul(fneg(z), q));
    // c y + c q = c
    lemma_fmul_distr(y, q, c);
    lemma_fsub(fone(), q);
    lemma_fmul_one(c);
    // z y - z q = (1 - 2 q) z
    lemma_fmul_neg(z, q);
    lemma_fsub(fmul(z, y), fmul(z, q));
    lemma_fmul_distr_sub(y, q, z);
    lemma_fint(1, 1);
    lemma_fmul_distr(fone(), fone(), q);
    lemma_fmul_one(q);
    assert(fmul(fint(2), q) == fadd(q, q));
    lemma_minus_twice(q);
    lemma_fmul_comm(fsub(y, q), z);
    lemma_fadd_comm(c, fmul(fsub(y, q), z));
}

/// `1 - q - q` is `1 - (q + q)`.
proof fn lemma_minus_twice(q: Fe)
    ensures
        fsub(fsub(fone(), q), q) == fsub(fone(), fadd(q, q)),
{
    let y = fsub(fone(), fadd(q, q));
    // y + q + q = 1
    lemma_fsub(fone(), fadd(q, q));
    lemma_fadd_assoc(y, q, q);
    lemma_fe_closed(fone(), fadd(q, q));
    lemma_fe_closed(y, q);
    lemma_fsub(fadd(y, q), q);
    lemma_fsub(y, q);
}

/// Both halves of a delegated vector come from the next one.
proof fn lemma_halves(s: Fe, r: Seq<Fe>, w: Fe, k: nat, b: nat)
    requires
        k < r.len(),
        all_fe(r),
        is_fe(w),
        fpow(w, pow2((r.len() - 1) as nat)) == fneg(fone()),
        b < pow2((r.len() - k - 1) as nat),
    ensures
        ({
            let h = pow2((r.len() - k - 1) as nat) as int;
            let u = fpow(w, (pow2(k) * b) as nat);
            let c = fsub(fone(), r[k as int]);
            let z = fmul(r[k as int], u);
            let next = delegated(s, r, w, k + 1)[b as int];
            &&& delegated(s, r, w, k)[b as int] == fmul(fadd(c, z), next)
            &&& delegated(s, r, w, k)[h + b] == fmul(fadd(c, fneg(z)), next)
        }),
{
    let m = (r.len() - k - 1) as nat;
    let h = pow2(m);
    let a = r[k as int];
    let c = fsub(fone(), a);
    let u = fpow(w, (pow2(k) * b) as nat);
    let z = fmul(a, u);
    let t = r.skip(k as int);
    assert(t.skip(1) =~= r.skip((k + 1) as int));
    lemma_pow2_step(m);
    lemma_pow2_step(k);
    lemma_mul_nonnegative(pow2(k) as int, b as int);
    lemma_fpow_fe(w, (pow2(k) * b) as nat);
    // the square of the power belongs to the next step
    let e = (pow2(k) * b) as nat;
    lemma_fpow_add(w, e, e);
    lemma_mul_is_associative(2, pow2(k) as int, b as int);
    assert(pow2(k + 1) * b == e + e);
    let p = powers_value(r.skip((k + 1) as int), fmul(u, u));
    lemma_powers_cons(t, u);
    lemma_apart(s, fadd(c, z), p);
    // the other half has the negative of the power
    let v = fpow(w, (pow2(k) * (h + b)) as nat);
    assert(pow2(k) * (h + b) == pow2(k) * h + e) by {
        lemma_mul_is_distributive_add(pow2(k) as int, h as int, b as int);
    }
    lemma_pow2_adds(k, m);
    assert(k + m == r.len() - 1);
    lemma_fpow_add(w, pow2(k) * h, e);
    lemma_fmul_neg(fone(), u);
    lemma_fmul_one(u);
    assert(v == fneg(u));
    lemma_fe_closed(u, u);
    lemma_fmul_neg(u, fneg(u));
    lemma_fmul_neg(u, u);
    lemma_neg_twice(fmul(u, u));
    assert(fmul(v, v) == fmul(u, u));
    lemma_fmul_neg(a, u);
    lemma_powers_cons(t, v);
    lemma_apart(s, fadd(c, fneg(z)), p);
}

proof fn lemma_neg_twice(x: Fe)
    requires
        is_fe(x),
    ensures
        fneg(fneg(x)) == x,
{
    reveal(fneg);
    let p = modulus();
    lemma_neg_mod_twice(x.0, p);
    lemma_neg_mod_twice(x.1, p);
}

proof fn lemma_neg_mod_twice(a: int, p: int)
    requires
        0 <= a < p,
    ensures
        (-((-a) % p)) % p == a,
{
    if a == 0 {
        assert((-a) % p == 0) by (nonlinear_arith)
            requires
                a == 0,
                0 < p,
        ;
    } else {
        assert((-a) % p == p - a) by {
            lemma_fundamental_div_mod_converse(-a, p, -1, p - a);
        }
        lemma_fundamental_div_mod_converse(-(p - a), p, -1, a);
    }
}

/// `s (x p)` is `x (s p)`.
proof fn lemma_apart(s: Fe, x: Fe, p: Fe)
    ensures
        fmul(s, fmul(x, p)) == fmul(x, fmul(s, p)),
{
    lemma_fmul_assoc(s, x, p);
    lemma_fmul_comm(s, x);
    lemma_fmul_assoc(x, s, p);
}

// ---------------------------------------------------------------------------------------
// Steps
// ---------------------------------------------------------------------------------------

/// The factors of the product that a step of a chain is about: the equality polynomial of the
/// point before without its last coordinate, the polynomial of the step, and the next vector.
pub open spec fn step_factors(
    prev: Seq<Fe>,
    rand: Fe,
    e: Seq<Fe>,
    first: bool,
    next: Seq<Fe>,
) -> Seq<Seq<Fe>> {
    seq![
        betas(prev.drop_last()),
        phi_row((prev.len() - 1) as nat, rand, prev.last(), e, first),
        next,
    ]
}

/// The vector with zeros in its second half.
pub open spec fn half_filled(v: Seq<Fe>) -> Seq<Fe> {
    Seq::new(v.len(), |i: int| if i < v.len() / 2 { v[i] } else { fzero() })
}

/// The value of the equality polynomial in one variable at its two vertices.
proof fn lemma_beta_single(q: Fe)
    requires
        is_fe(q),
    ensures
        beta(seq![q], 0) == fsub(fone(), q),
        beta(seq![q], 1) == q,
{
    let hi = seq![q];
    assert(all_fe(hi));
    lemma_beta_pair(hi, 0);
    assert(beta(hi.subrange(1, 1), 0) == fone());
    lemma_fe_closed(fone(), q);
    lemma_fmul_one(fsub(fone(), q));
    lemma_fmul_one(q);
}

/// What fixing the last variable leaves of a vector.
proof fn lemma_fix_last(v: Seq<Fe>, n: nat, q: Fe, b: int)
    requires
        is_fe(q),
        0 <= b < n,
    ensures
        fix_high(v, n, seq![q])[b] == fadd(fmul(v[b], fsub(fone(), q)), fmul(v[n + b], q)),
{
    let f = |i: int| fmul(v[i * n + b], beta(seq![q], i as nat));
    lemma_pow2_zero();
    lemma_pow2_step(0);
    lemma_beta_single(q);
    assert(fsum(2, f) == fadd(fadd(fzero(), f(0)), f(1))) by {
        reveal_with_fuel(fsum, 3);
    }
    lemma_fe_closed(v[b], fsub(fone(), q));
    assert(0 * n + b == b && 1 * n + b == n + b);
    lemma_fadd_zero(f(0));
}

/// The sum that a step is about, where fixing the last variable leaves the product of its factors.
proof fn lemma_step_sum(v: Seq<Fe>, p: Seq<Fe>, row: Seq<Fe>, next: Seq<Fe>)
    requires
        p.len() > 0,
        all_fe(p),
        forall|b: int|
            0 <= b < pow2((p.len() - 1) as nat) ==> #[trigger] fix_high(
                v,
                pow2((p.len() - 1) as nat),
                seq![p.last()],
            )[b] == fmul(row[b], next[b]),
    ensures
        mle(v, p) == fsum(
            pow2((p.len() - 1) as nat),
            |b: int| term_at(fone(), seq![betas(p.drop_last()), row, next], b),
        ),
{
    let lo = p.drop_last();
    let hi = seq![p.last()];
    let n = pow2(lo.len());
    let w = fix_high(v, n, hi);
    assert(lo + hi =~= p);
    law_fix_high(v, lo, hi);
    let factors = seq![betas(lo), row, next];
    let f = |b: int| fmul(w[b], beta(lo, b as nat));
    let g = |b: int| term_at(fone(), factors, b);
    assert forall|b: int| 0 <= b < n implies #[trigger] f(b) == g(b) by {
        assert(w[b] == fmul(row[b], next[b]));
        let x = beta(lo, b as nat);
        let h = |i: int| factors[i][b];
        assert(fprod(3, h) == fmul(fmul(fmul(fone(), h(0)), h(1)), h(2))) by {
            reveal_with_fuel(fprod, 4);
        }
        lemma_beta_fe(lo, b as nat);
        lemma_fmul_one(x);
        lemma_fmul_assoc(x, row[b], next[b]);
        lemma_fmul_comm(x, w[b]);
        lemma_fe_closed(w[b], x);
        lemma_fmul_one(f(b));
    }
    lemma_fsum_eq(n, f, g);
}

/// The value of the polynomial of a step at a vertex.
proof fn lemma_phi_at(b: nat, m: nat, rand1: Fe, rand2: Fe, e: Seq<Fe>, first: bool, g: Fe)
    requires
        b < pow2(m),
        is_fe(g),
        ends_in_squares(e, m, g),
    ensures
        phi_row(m, rand1, rand2, e, first)[b as int] == fadd(
            fmul(phi_slope(rand1, rand2, first), fpow(g, b)),
            phi_offset(rand1, rand2, first),
        ),
{
    lemma_phi_affine(fbits(b, m), rand1, rand2, e, first, g);
    lemma_powers_vertex(b, m, g);
}

/// A step of a chain starts from the right value: that of the vector before at the point before is
/// the sum over the hypercube of the product that the step is about.
pub proof fn law_delegation_step(
    s: Fe,
    r: Seq<Fe>,
    w: Fe,
    k: nat,
    p: Seq<Fe>,
    e: Seq<Fe>,
)
    requires
        k < r.len(),
        p.len() == r.len() - k,
        all_fe(r),
        all_fe(p),
        is_fe(w),
        fpow(w, pow2((r.len() - 1) as nat)) == fneg(fone()),
        ends_in_squares(e, (p.len() - 1) as nat, fpow(w, pow2(k))),
    ensures
        mle(delegated(s, r, w, k), p) == fsum(
            pow2((p.len() - 1) as nat),
            |b: int|
                term_at(
                    fone(),
                    step_factors(p, r[k as int], e, false, delegated(s, r, w, k + 1)),
                    b,
                ),
        ),
{
    let m = (p.len() - 1) as nat;
    let q = p.last();
    let a = r[k as int];
    let g = fpow(w, pow2(k));
    let v = delegated(s, r, w, k);
    let next = delegated(s, r, w, k + 1);
    let row = phi_row(m, a, q, e, false);
    lemma_fpow_fe(w, pow2(k));
    assert forall|b: int| 0 <= b < pow2(m) implies #[trigger] fix_high(v, pow2(m), seq![q])[b]
        == fmul(row[b], next[b]) by {
        let c = fsub(fone(), a);
        let u = fpow(w, (pow2(k) * b) as nat);
        let z = fmul(a, u);
        let x = next[b];
        lemma_fix_last(v, pow2(m), q, b);
        lemma_halves(s, r, w, k, b as nat);
        // ((c + z) x) (1 - q) + ((c - z) x) q
        let y = fsub(fone(), q);
        lemma_move_factor(fadd(c, z), x, y);
        lemma_move_factor(fadd(c, fneg(z)), x, q);
        lemma_fmul_distr(fmul(fadd(c, z), y), fmul(fadd(c, fneg(z)), q), x);
        lemma_fe_closed(fone(), a);
        lemma_between(c, z, q);
        lemma_phi_at(b as nat, m, a, q, e, false, g);
        lemma_fpow_mul(w, pow2(k), b as nat);
        lemma_fmul_assoc(fsub(fone(), fmul(fint(2), q)), a, u);
    }
    lemma_step_sum(v, p, row, next);
}

/// `(x y) z` is `(x z) y`.
proof fn lemma_move_factor(x: Fe, y: Fe, z: Fe)
    ensures
        fmul(fmul(x, y), z) == fmul(fmul(x, z), y),
{
    lemma_fmul_assoc(x, y, z);
    lemma_fmul_comm(y, z);
    lemma_fmul_assoc(x, z, y);
}

/// The first step of the chain for a transform starts from the right value, where only the first
/// half of the vector counts: the vector that is transformed ends in zeros.
pub proof fn law_delegation_first(s: Fe, r: Seq<Fe>, w: Fe, p: Seq<Fe>, e: Seq<Fe>)
    requires
        r.len() > 0,
        p.len() == r.len(),
        all_fe(r),
        all_fe(p),
        is_fe(w),
        fpow(w, pow2((r.len() - 1) as nat)) == fneg(fone()),
        ends_in_squares(e, (p.len() - 1) as nat, w),
    ensures
        mle(half_filled(delegated(s, r, w, 0)), p) == fsum(
            pow2((p.len() - 1) as nat),
            |b: int|
                term_at(fone(), step_factors(p, r[0], e, true, delegated(s, r, w, 1)), b),
        ),
{
    let m = (p.len() - 1) as nat;
    let q = p.last();
    let a = r[0];
    let full = delegated(s, r, w, 0);
    let v = half_filled(full);
    let next = delegated(s, r, w, 1);
    let row = phi_row(m, a, q, e, true);
    lemma_pow2_zero();
    lemma_pow2_step(m);
    assert forall|b: int| 0 <= b < pow2(m) implies #[trigger] fix_high(v, pow2(m), seq![q])[b]
        == fmul(row[b], next[b]) by {
        let c = fsub(fone(), a);
        let u = fpow(w, b as nat);
        let z = fmul(a, u);
        let x = next[b];
        let y = fsub(fone(), q);
        lemma_fix_last(v, pow2(m), q, b);
        lemma_halves(s, r, w, 0, b as nat);
        assert(pow2(0) * b == b);
        assert(v[b] == full[b]);
        assert(v[pow2(m) + b] == fzero());
        lemma_fmul_zero(q);
        lemma_fe_closed(v[b], y);
        lemma_fadd_zero(fmul(v[b], y));
        lemma_move_factor(fadd(c, z), x, y);
        // (c + z) y = y z + y c
        lemma_fmul_distr(c, z, y);
        lemma_fmul_comm(c, y);
        lemma_fmul_comm(z, y);
        lemma_fadd_comm(fmul(y, c), fmul(y, z));
        lemma_fmul_assoc(y, a, u);
        lemma_phi_at(b as nat, m, a, q, e, true, w);
    }
    lemma_step_sum(v, p, row, next);
}

// ---------------------------------------------------------------------------------------
// Transforms
// ---------------------------------------------------------------------------------------

/// The value of a transform at a point is the sum of the products of the entries of the vector
/// with those of the row of the matrix.
proof fn lemma_transform_sum(x: Seq<Fe>, s: Fe, w: Fe, r: Seq<Fe>, t: Seq<Fe>)
    requires
        x.len() == pow2(r.len()),
        all_fe(r),
        is_fe(w),
        forall|k: int| 0 <= k < x.len() ==> #[trigger] t[k] == fmul(s, dft(x, w, k as nat)),
    ensures
        mle(t, r) == fsum(x.len(), |i: int| fmul(x[i], delegated(s, r, w, 0)[i])),
{
    let n = x.len();
    let row = delegated(s, r, w, 0);
    let b = |k: int| beta(r, k as nat);
    let cell = |k: int, i: int| fmul(fmul(s, x[i]), fmul(fpow(w, (i * k) as nat), b(k)));
    let f = |k: int| fmul(t[k], b(k));
    let f2 = |k: int| fsum(n, |i: int| cell(k, i));
    assert forall|k: int| 0 <= k < n implies #[trigger] f(k) == f2(k) by {
        let c = fmul(s, b(k));
        let d = |i: int| fmul(x[i], fpow(w, (i * k) as nat));
        let cd = |i: int| fmul(c, d(i));
        let e = |i: int| cell(k, i);
        assert(t[k] == fmul(s, fsum(n, d)));
        lemma_move_factor(s, fsum(n, d), b(k));
        lemma_fsum_scale(n, c, d);
        assert((|i: int| fmul(c, d(i))) =~= cd);
        assert forall|i: int| 0 <= i < n implies #[trigger] cd(i) == e(i) by {
            let y = fpow(w, (i * k) as nat);
            lemma_fmul_swap(s, b(k), x[i], y);
            lemma_fmul_comm(b(k), y);
        }
        lemma_fsum_eq(n, cd, e);
    }
    lemma_fsum_eq(n, f, f2);
    lemma_fsum_swap(n, n, cell);
    assert((|k: int| fsum(n, |i: int| cell(k, i))) =~= f2);
    let g = |i: int| fsum(n, |k: int| cell(k, i));
    let h = |i: int| fmul(x[i], row[i]);
    assert forall|i: int| 0 <= i < n implies #[trigger] g(i) == h(i) by {
        let c = fmul(s, x[i]);
        let wi = fpow(w, i as nat);
        let v = powers(wi, n);
        let d = |k: int| fmul(v[k], b(k));
        let cd = |k: int| fmul(c, d(k));
        let e = |k: int| cell(k, i);
        lemma_fsum_scale(n, c, d);
        assert((|k: int| fmul(c, d(k))) =~= cd);
        assert forall|k: int| 0 <= k < n implies #[trigger] cd(k) == e(k) by {
            lemma_fpow_mul(w, i as nat, k as nat);
        }
        lemma_fsum_eq(n, cd, e);
        lemma_fpow_fe(w, i as nat);
        lemma_powers_mle(r, wi);
        assert((|k: int| fmul(v[k], beta(r, k as nat))) =~= d);
        assert(fsum(n, d) == mle(v, r));
        lemma_pow2_zero();
        assert(r.skip(0) =~= r);
        assert(pow2(0) * i == i);
        lemma_move_factor(s, x[i], powers_value(r, wi));
        lemma_fmul_comm(row[i], x[i]);
    }
    lemma_fsum_eq(n, g, h);
    assert((|k: int| fmul(t[k], beta(r, k as nat))) =~= f);
}

/// The value of a transform at a point is the sum over the hypercube of the products of the vector
/// with the row of the matrix that belongs to the point. Where the vector ends in zeros, the
/// second half of the row does not count.
pub proof fn law_fft_sum(x: Seq<Fe>, n: nat, r: Seq<Fe>)
    requires
        n <= 32,
        x.len() == pow2(n),
        r.len() == n,
        all_fe(r),
    ensures
        mle(fft_of(x, n), r) == fsum(
            pow2(n),
            |i: int| fmul(x[i], delegated(fone(), r, omega(n), 0)[i]),
        ),
        (forall|i: int| pow2(n) / 2 <= i < pow2(n) ==> #[trigger] x[i] == fzero()) ==> mle(
            fft_of(x, n),
            r,
        ) == fsum(
            pow2(n),
            |i: int| fmul(x[i], half_filled(delegated(fone(), r, omega(n), 0))[i]),
        ),
{
    let w = omega(n);
    let t = fft_of(x, n);
    let row = delegated(fone(), r, w, 0);
    lemma_omega_order(n);
    assert forall|k: int| 0 <= k < x.len() implies #[trigger] t[k] == fmul(
        fone(),
        dft(x, w, k as nat),
    ) by {
        lemma_fsum_fe(x.len(), |i: int| fmul(x[i], fpow(w, (i * k as nat) as nat)));
        lemma_fmul_one(dft(x, w, k as nat));
    }
    lemma_transform_sum(x, fone(), w, r, t);
    if forall|i: int| pow2(n) / 2 <= i < pow2(n) ==> #[trigger] x[i] == fzero() {
        let f = |i: int| fmul(x[i], row[i]);
        let g = |i: int| fmul(x[i], half_filled(row)[i]);
        assert forall|i: int| 0 <= i < pow2(n) implies #[trigger] f(i) == g(i) by {
            if i >= pow2(n) / 2 {
                assert(x[i] == fzero());
                lemma_fmul_zero(row[i]);
                lemma_fmul_zero(fzero());
            }
        }
        lemma_fsum_eq(pow2(n), f, g);
    }
}

/// The same for an inverse transform.
pub proof fn law_ifft_sum(x: Seq<Fe>, n: nat, r: Seq<Fe>)
    requires
        n <= 32,
        x.len() == pow2(n),
        r.len() == n,
        all_fe(r),
    ensures
        mle(ifft_of(x, n), r) == fsum(
            pow2(n),
            |i: int|
                fmul(
                    x[i],
                    delegated(finv(fint(pow2(n) as int)), r, finv(omega(n)), 0)[i],
                ),
        ),
{
    let s = finv(fint(pow2(n) as int));
    let w = finv(omega(n));
    lemma_omega_inverse(n);
    lemma_fpow_fe(omega(n), (pow2(n) - 1) as nat);
    lemma_transform_sum(x, s, w, r, ifft_of(x, n));
}

// ---------------------------------------------------------------------------------------
// Chains
// ---------------------------------------------------------------------------------------

/// The claims of a chain are the values of the factors of each step at the point where it ends,
/// and each step has one variable less than the one before.
pub open spec fn honest_chain(
    s: Fe,
    r: Seq<Fe>,
    inverse: bool,
    start: Seq<Fe>,
    points: Seq<Seq<Fe>>,
    claims: Seq<Seq<Fe>>,
) -> bool {
    let w = delegation_root(r.len(), inverse);
    let e = root_powers(r.len(), inverse);
    &&& 2 <= r.len() <= 32
    &&& start.len() == r.len()
    &&& points.len() == r.len() - 1
    &&& claims.len() == points.len()
    &&& all_fe(r)
    &&& all_fe(start)
    &&& forall|i: int|
        0 <= i < points.len() ==> (#[trigger] points[i]).len() == points.len() - i && all_fe(
            points[i],
        )
    &&& forall|i: int|
        0 <= i < points.len() ==> {
            let factors = step_factors(
                chain_point(start, points, i),
                r[i],
                e,
                !inverse && i == 0,
                delegated(s, r, w, (i + 1) as nat),
            );
            #[trigger] claims[i] == Seq::new(3, |j: int| mle(factors[j], points[i]))
        }
}

proof fn lemma_root(n: nat, inverse: bool)
    requires
        0 < n <= 32,
    ensures
        is_fe(delegation_root(n, inverse)),
        fpow(delegation_root(n, inverse), pow2((n - 1) as nat)) == fneg(fone()),
{
    lemma_omega((n - 1) as nat);
    lemma_inverse_half(n);
    lemma_omega_inverse(n);
    lemma_fpow_fe(omega(n), (pow2(n) - 1) as nat);
}

/// The powers of the root end in repeated squares.
proof fn lemma_root_squares(n: nat, inverse: bool, k: nat)
    requires
        k < n,
    ensures
        ends_in_squares(
            root_powers(n, inverse),
            (n - 1 - k) as nat,
            fpow(delegation_root(n, inverse), pow2(k)),
        ),
{
    let e = root_powers(n, inverse);
    let w = delegation_root(n, inverse);
    let m = (n - 1 - k) as nat;
    assert forall|i: int| 0 <= i < m implies #[trigger] e[e.len() - m + i] == fpow(
        fpow(w, pow2(k)),
        pow2(i as nat),
    ) by {
        lemma_pow2_adds(k, i as nat);
        lemma_fpow_mul(w, pow2(k), pow2(i as nat));
        assert(e.len() - m + i == k + i);
    }
}

/// The equality polynomial is symmetric, and coordinates that only one point has do not count.
proof fn lemma_identity_shorter(x: Seq<Fe>, p: Seq<Fe>)
    requires
        p.len() == x.len() + 1,
    ensures
        identity(x, p) == identity(p.drop_last(), x),
{
    let lo = p.drop_last();
    let f = |i: int| eq1(x[i], p[i]);
    let g = |i: int| eq1(lo[i], x[i]);
    assert forall|i: int| 0 <= i < x.len() implies #[trigger] f(i) == g(i) by {
        lemma_fmul_comm(x[i], p[i]);
        lemma_fmul_comm(fsub(fone(), x[i]), fsub(fone(), p[i]));
    }
    lemma_fprod_eq(x.len(), f, g);
}

/// Each step of an honest chain passes its checks.
proof fn lemma_honest_step(
    s: Fe,
    r: Seq<Fe>,
    inverse: bool,
    start: Seq<Fe>,
    points: Seq<Seq<Fe>>,
    claims: Seq<Seq<Fe>>,
    rands: Seq<Fe>,
    i: int,
)
    requires
        honest_chain(s, r, inverse, start, points, claims),
        0 <= i < points.len(),
        rands[i] == r[i],
    ensures
        claims[i].len() == 3,
        chain_step_ok(start, points, claims, rands, root_powers(r.len(), inverse), inverse, i),
{
    let n = r.len();
    let prev = chain_point(start, points, i);
    let x = points[i];
    let first = !inverse && i == 0;
    let e = root_powers(n, inverse);
    let g = fpow(delegation_root(n, inverse), pow2(i as nat));
    assert(prev.len() == x.len() + 1 && all_fe(prev)) by {
        if i > 0 {
            assert(points[i - 1].len() == points.len() - (i - 1));
        }
    }
    assert(claims[i][0] == mle(betas(prev.drop_last()), x));
    law_betas_mle(prev.drop_last(), x, betas(prev.drop_last()));
    lemma_identity_shorter(x, prev);
    lemma_root(n, inverse);
    lemma_fpow_fe(delegation_root(n, inverse), pow2(i as nat));
    lemma_root_squares(n, inverse, i as nat);
    law_phi_extension(x, r[i], prev.last(), e, first, g);
    assert(claims[i][1] == mle(phi_row(x.len(), r[i], prev.last(), e, first), x));
}

/// The extension of a vector of two entries.
proof fn lemma_mle_two(v: Seq<Fe>, x: Fe)
    requires
        is_fe(x),
    ensures
        mle(v, seq![x]) == fadd(fmul(v[0], fsub(fone(), x)), fmul(v[1], x)),
{
    let f = |k: int| fmul(v[k], beta(seq![x], k as nat));
    lemma_pow2_zero();
    lemma_pow2_step(0);
    lemma_beta_single(x);
    assert(fsum(2, f) == fadd(fadd(fzero(), f(0)), f(1))) by {
        reveal_with_fuel(fsum, 3);
    }
    lemma_fe_closed(v[0], fsub(fone(), x));
    lemma_fadd_zero(f(0));
}

/// The two entries that a chain ends with.
proof fn lemma_last_vector(s: Fe, r: Seq<Fe>, w: Fe)
    requires
        r.len() > 0,
        all_fe(r),
        is_fe(w),
        is_fe(s),
        fpow(w, pow2((r.len() - 1) as nat)) == fneg(fone()),
    ensures
        ({
            let v = delegated(s, r, w, (r.len() - 1) as nat);
            let a = r.last();
            &&& v[0] == s
            &&& v[1] == fmul(s, fsub(fone(), fmul(fint(2), a)))
        }),
{
    let n = (r.len() - 1) as nat;
    let a = r.last();
    let v = delegated(s, r, w, n);
    let t = r.skip(n as int);
    assert(t =~= seq![a]);
    lemma_pow2_zero();
    lemma_pow2_step(0);
    assert(pow2((r.len() - n) as nat) == 2);
    let c = fsub(fone(), a);
    // the first entry
    assert(pow2(n) * 0 == 0);
    lemma_powers_single(a, fone());
    lemma_fmul_one(a);
    lemma_fsub(fone(), a);
    lemma_fmul_one(s);
    assert(v[0] == fmul(s, fone()));
    // the second entry
    assert(pow2(n) * 1 == pow2(n));
    lemma_fe_closed(fone(), a);
    lemma_powers_single(a, fneg(fone()));
    lemma_fmul_neg(a, fone());
    lemma_fsub(c, a);
    lemma_minus_twice(a);
    lemma_fint(1, 1);
    lemma_fmul_distr(fone(), fone(), a);
}

proof fn lemma_powers_single(a: Fe, g: Fe)
    requires
        is_fe(a),
        is_fe(g),
    ensures
        powers_value(seq![a], g) == fadd(fsub(fone(), a), fmul(a, g)),
{
    let x = seq![a];
    assert(all_fe(x));
    lemma_powers_cons(x, g);
    lemma_fe_closed(fsub(fone(), a), fmul(a, g));
    lemma_fmul_one(fadd(fsub(fone(), a), fmul(a, g)));
    assert(x.skip(1).len() == 0);
}

/// The checks accept the chain of an honest prover for the matrix of a transform. The row belongs
/// to the first coordinates of `rands`.
pub proof fn law_fft_chain(
    start: Seq<Fe>,
    points: Seq<Seq<Fe>>,
    claims: Seq<Seq<Fe>>,
    rands: Seq<Fe>,
)
    requires
        points.len() < rands.len(),
        honest_chain(
            fone(),
            rands.take((points.len() + 1) as int),
            false,
            start,
            points,
            claims,
        ),
    ensures
        fft_chain_ok(
            mle(
                half_filled(
                    delegated(
                        fone(),
                        rands.take((points.len() + 1) as int),
                        omega(points.len() + 1),
                        0,
                    ),
                ),
                start,
            ),
            start,
            points,
            claims,
            rands,
        ),
{
    let n = points.len() as int;
    let r = rands.take(n + 1);
    let w = omega(r.len());
    assert forall|i: int| 0 <= i < n implies #[trigger] chain_step_ok(
        start,
        points,
        claims,
        rands,
        root_powers(points.len() + 1, false),
        false,
        i,
    ) && claims[i].len() == 3 by {
        lemma_honest_step(fone(), r, false, start, points, claims, rands, i);
    }
    lemma_root(r.len(), false);
    let last = points[n - 1];
    let x = last[0];
    let v = delegated(fone(), r, w, n as nat);
    assert(last =~= seq![x]);
    assert(claims[n - 1][2] == mle(v, last));
    lemma_last_vector(fone(), r, w);
    lemma_mle_two(v, x);
    // (1 - x) + y x = y x + 1 - x
    let a = fsub(fone(), fmul(fint(2), rands[n]));
    lemma_fe_closed(fone(), fmul(fint(2), rands[n]));
    lemma_fmul_one(a);
    lemma_fe_closed(fone(), x);
    lemma_fmul_one(fsub(fone(), x));
    let y = fmul(a, x);
    lemma_fadd_comm(fsub(fone(), x), y);
    lemma_fsub(fone(), x);
    lemma_fsub(fadd(y, fone()), x);
    lemma_fadd_assoc(y, fone(), fneg(x));
    assert forall|i: int| 0 <= i < n implies (#[trigger] claims[i]).len() >= 3 by {
        assert(chain_step_ok(
            start,
            points,
            claims,
            rands,
            root_powers(points.len() + 1, false),
            false,
            i,
        ));
    }
}

/// The checks accept the chain of an honest prover for the matrix of an inverse transform. The row
/// belongs to the first coordinates of `rands`, followed by zero: only the first half of the
/// transform counts.
pub proof fn law_ifft_chain(
    start: Seq<Fe>,
    points: Seq<Seq<Fe>>,
    claims: Seq<Seq<Fe>>,
    rands: Seq<Fe>,
)
    requires
        points.len() <= rands.len(),
        honest_chain(
            finv(fint(pow2(points.len() + 1) as int)),
            rands.take(points.len() as int).push(fzero()),
            true,
            start,
            points,
            claims,
        ),
    ensures
        ifft_chain_ok(
            mle(
                delegated(
                    finv(fint(pow2(points.len() + 1) as int)),
                    rands.take(points.len() as int).push(fzero()),
                    finv(omega(points.len() + 1)),
                    0,
                ),
                start,
            ),
            start,
            points,
            claims,
            rands,
        ),
{
    let n = points.len() as int;
    let r = rands.take(n).push(fzero());
    let w = finv(omega(r.len()));
    let s = finv(fint(pow2(r.len()) as int));
    lemma_pow2_invertible(r.len());
    assert(is_fe(s));
    assert forall|i: int| 0 <= i < n implies #[trigger] chain_step_ok(
        start,
        points,
        claims,
        rands,
        root_powers(points.len() + 1, true),
        true,
        i,
    ) && claims[i].len() == 3 by {
        lemma_honest_step(s, r, true, start, points, claims, rands, i);
    }
    lemma_root(r.len(), true);
    let last = points[n - 1];
    let x = last[0];
    let v = delegated(s, r, w, n as nat);
    assert(last =~= seq![x]);
    assert(claims[n - 1][2] == mle(v, last));
    lemma_last_vector(s, r, w);
    lemma_mle_two(v, x);
    lemma_fmul_zero(fint(2));
    lemma_fadd_zero(fone());
    lemma_fmul_one(s);
    lemma_fadd_comm(fmul(s, fsub(fone(), x)), fmul(s, x));
    assert forall|i: int| 0 <= i < n implies (#[trigger] claims[i]).len() >= 3 by {
        assert(chain_step_ok(
            start,
            points,
            claims,
            rands,
            root_powers(points.len() + 1, true),
            true,
            i,
        ));
    }
}

} // verus!
