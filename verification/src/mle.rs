//! Multilinear extensions of vectors over the field.
use crate::arith::{lemma_pow2_step, lemma_pow2_zero};
use crate::commit::{
    aggregated_rlc, beta, beta_factor, compute_betas_eval, eq1, fbit, fbits, identity,
    law_betas_sum_to_one, lemma_beta_cons, lemma_beta_fe, lemma_beta_pair, lemma_bit_shift,
    lemma_fsum_pairs,
};
use crate::field::{
    Fe, GoldilocksExt2, all_fe, fadd, fmul, fone, fprod, fsub, fsum, fviews, fzero, is_fe,
    lemma_fadd_comm, lemma_fadd_zero, lemma_fe_closed, lemma_fmul_assoc, lemma_fmul_comm,
    lemma_fmul_distr, lemma_fmul_one, lemma_fmul_swap, lemma_fmul_zero, lemma_fprod_eq,
    lemma_fprod_split, lemma_fsub, lemma_fsum_add, lemma_fsum_eq, lemma_fsum_fe, lemma_fsum_scale,
    lemma_fsum_single, lemma_fsum_split, lemma_fsum_swap, lemma_fsum_zero,
};
use vstd::arithmetic::div_mod::*;
use vstd::arithmetic::mul::*;
use vstd::arithmetic::power2::*;
use vstd::prelude::*;

verus! {

/// The multilinear extension of `v` at the point `r`: the sum of the entries of `v`, each
/// weighted by the equality polynomial of its index.
pub open spec fn mle(v: Seq<Fe>, r: Seq<Fe>) -> Fe {
    fsum(pow2(r.len()), |k: int| fmul(v[k], beta(r, k as nat)))
}

/// The vector in the low variables that is left of `v` once its high variables are fixed to `hi`:
/// entry `k` is the sum over `i` of `v[i * n + k] * beta(hi, i)`.
pub open spec fn fix_high(v: Seq<Fe>, n: nat, hi: Seq<Fe>) -> Seq<Fe> {
    Seq::new(
        n,
        |k: int| fsum(pow2(hi.len()), |i: int| fmul(v[i * n + k], beta(hi, i as nat))),
    )
}

/// At a vertex of the hypercube the equality polynomial tells whether the index is the vertex.
pub proof fn lemma_beta_vertex(n: nat, k: nat, j: nat)
    requires
        k < pow2(n),
        j < pow2(n),
    ensures
        beta(fbits(k, n), j) == if j == k {
            fone()
        } else {
            fzero()
        },
    decreases n,
{
    let r = fbits(k, n);
    lemma_pow2_zero();
    if n > 0 {
        let m = (n - 1) as nat;
        lemma_pow2_step(m);
        let s = r.subrange(1, n as int);
        assert(s =~= fbits(k / 2, m)) by {
            assert forall|t: int| 0 <= t < m implies s[t] == fbits(k / 2, m)[t] by {
                lemma_bit_shift(k, t as nat);
            }
        }
        lemma_beta_vertex(m, k / 2, j / 2);
        lemma_beta_cons(r, j);
        lemma_bit_shift(k, 0);
        lemma_bit_shift(j, 0);
        lemma_fsub(fone(), fone());
        lemma_fsub(fone(), fzero());
        lemma_fadd_zero(fone());
        lemma_fadd_zero(fsub(fone(), fzero()));
        lemma_fadd_comm(fsub(fone(), fzero()), fzero());
        lemma_fe_closed(fone(), fzero());
        lemma_fmul_one(fone());
        lemma_fmul_one(fzero());
        lemma_fmul_zero(fone());
        lemma_fmul_zero(fzero());
        assert(r[0] == fbit(k, 0));
    }
}

/// The extension of a vector takes the value of entry `k` at the vertex numbered `k`.
pub proof fn law_mle_at_vertex(v: Seq<Fe>, n: nat, k: nat)
    requires
        v.len() == pow2(n),
        k < pow2(n),
        all_fe(v),
    ensures
        mle(v, fbits(k, n)) == v[k as int],
{
    let r = fbits(k, n);
    let f = |j: int| fmul(v[j], beta(r, j as nat));
    assert forall|j: int| 0 <= j < pow2(n) && j != k implies #[trigger] f(j) == fzero() by {
        lemma_beta_vertex(n, k, j as nat);
        lemma_fmul_zero(v[j]);
    }
    lemma_beta_vertex(n, k, k);
    lemma_fmul_one(v[k as int]);
    lemma_fsum_single(pow2(n), k as int, f);
}

pub proof fn lemma_mle_fe(v: Seq<Fe>, r: Seq<Fe>)
    ensures
        is_fe(mle(v, r)),
{
    lemma_fsum_fe(pow2(r.len()), |k: int| fmul(v[k], beta(r, k as nat)));
}

/// The extension is linear: that of `c * v + w` is `c` times that of `v` plus that of `w`.
pub proof fn lemma_mle_linear(c: Fe, v: Seq<Fe>, w: Seq<Fe>, u: Seq<Fe>, r: Seq<Fe>)
    requires
        forall|k: int|
            0 <= k < pow2(r.len()) ==> #[trigger] u[k] == fadd(fmul(c, v[k]), w[k]),
    ensures
        mle(u, r) == fadd(fmul(c, mle(v, r)), mle(w, r)),
{
    let n = pow2(r.len());
    let fv = |k: int| fmul(v[k], beta(r, k as nat));
    let fw = |k: int| fmul(w[k], beta(r, k as nat));
    let fu = |k: int| fmul(u[k], beta(r, k as nat));
    let fcv = |k: int| fmul(c, fv(k));
    let g = |k: int| fadd(fcv(k), fw(k));
    assert forall|k: int| 0 <= k < n implies #[trigger] fu(k) == g(k) by {
        let b = beta(r, k as nat);
        lemma_fmul_distr(fmul(c, v[k]), w[k], b);
        lemma_fmul_assoc(c, v[k], b);
        assert(u[k] == fadd(fmul(c, v[k]), w[k]));
    }
    lemma_fsum_eq(n, fu, g);
    lemma_fsum_add(n, fcv, fw);
    lemma_fsum_scale(n, c, fv);
    assert(fsum(n, |k: int| fmul(c, fv(k))) == fsum(n, fcv)) by {
        assert((|k: int| fmul(c, fv(k))) =~= fcv);
    }
    assert(fsum(n, |k: int| fadd(fcv(k), fw(k))) == fsum(n, g)) by {
        assert((|k: int| fadd(fcv(k), fw(k))) =~= g);
    }
}

/// Two vectors that agree on the hypercube have the same extension.
pub proof fn lemma_mle_eq(v: Seq<Fe>, w: Seq<Fe>, r: Seq<Fe>)
    requires
        forall|k: int| 0 <= k < pow2(r.len()) ==> #[trigger] v[k] == w[k],
    ensures
        mle(v, r) == mle(w, r),
{
    let f = |k: int| fmul(v[k], beta(r, k as nat));
    let g = |k: int| fmul(w[k], beta(r, k as nat));
    assert forall|k: int| 0 <= k < pow2(r.len()) implies #[trigger] f(k) == g(k) by {
        assert(v[k] == w[k]);
    }
    lemma_fsum_eq(pow2(r.len()), f, g);
}

/// The extension of the vector whose entries are all `c` is `c`.
pub proof fn lemma_mle_constant(c: Fe, v: Seq<Fe>, r: Seq<Fe>)
    requires
        all_fe(r),
        is_fe(c),
        forall|k: int| 0 <= k < pow2(r.len()) ==> #[trigger] v[k] == c,
    ensures
        mle(v, r) == c,
{
    let n = pow2(r.len());
    let f = |k: int| fmul(v[k], beta(r, k as nat));
    let b = |k: int| beta(r, k as nat);
    let g = |k: int| fmul(c, b(k));
    assert forall|k: int| 0 <= k < n implies #[trigger] f(k) == g(k) by {
        assert(v[k] == c);
    }
    lemma_fsum_eq(n, f, g);
    lemma_fsum_scale(n, c, b);
    assert((|k: int| fmul(c, b(k))) =~= g);
    law_betas_sum_to_one(r);
    assert((|k: int| beta(r, k as nat)) =~= b);
    lemma_fmul_one(c);
}

/// The equality polynomial of a point made of two parts is the product over the parts.
pub proof fn lemma_beta_concat(lo: Seq<Fe>, hi: Seq<Fe>, k: nat, i: nat)
    requires
        all_fe(lo),
        all_fe(hi),
        k < pow2(lo.len()),
    ensures
        beta(lo + hi, i * pow2(lo.len()) + k) == fmul(beta(lo, k), beta(hi, i)),
    decreases lo.len(),
{
    let n = lo.len();
    let x = i * pow2(n) + k;
    if n == 0 {
        lemma_pow2_zero();
        assert(lo + hi =~= hi);
        lemma_beta_fe(hi, i);
        lemma_fmul_one(beta(hi, i));
        assert(i * 1 == i);
    } else {
        let m = (n - 1) as nat;
        lemma_pow2_step(m);
        let s = lo.subrange(1, n as int);
        let r = lo + hi;
        assert(r.subrange(1, r.len() as int) =~= s + hi);
        assert(x == 2 * (i * pow2(m)) + k) by {
            lemma_mul_is_associative(i as int, 2, pow2(m) as int);
            lemma_mul_is_associative(2, i as int, pow2(m) as int);
        }
        assert(x / 2 == i * pow2(m) + k / 2);
        assert(x % 2 == k % 2);
        assert(all_fe(r)) by {
            assert forall|t: int| 0 <= t < r.len() implies is_fe(#[trigger] r[t]) by {
                if t < n {
                    assert(r[t] == lo[t]);
                } else {
                    assert(r[t] == hi[t - n]);
                }
            }
        }
        lemma_beta_cons(r, x);
        lemma_beta_cons(lo, k);
        lemma_bit_shift(x, 0);
        lemma_bit_shift(k, 0);
        lemma_beta_concat(s, hi, k / 2, i);
        lemma_fmul_assoc(beta_factor(lo, k, 0), beta(s, k / 2), beta(hi, i));
    }
}

/// Fixing the high variables and then the low ones is evaluating at the whole point.
pub proof fn law_fix_high(v: Seq<Fe>, lo: Seq<Fe>, hi: Seq<Fe>)
    requires
        all_fe(lo),
        all_fe(hi),
    ensures
        mle(fix_high(v, pow2(lo.len()), hi), lo) == mle(v, lo + hi),
{
    let n = pow2(lo.len());
    let m = pow2(hi.len());
    let w = fix_high(v, n, hi);
    lemma_pow2_pos(lo.len());
    // sum over k of (sum over i of v[i n + k] beta(hi, i)) beta(lo, k)
    let term = |k: int, i: int| fmul(fmul(v[i * n + k], beta(hi, i as nat)), beta(lo, k as nat));
    let outer = |k: int| fmul(w[k], beta(lo, k as nat));
    let outer2 = |k: int| fsum(m, |i: int| term(k, i));
    assert forall|k: int| 0 <= k < n implies #[trigger] outer(k) == outer2(k) by {
        let inn = |i: int| fmul(v[i * n + k], beta(hi, i as nat));
        let b = beta(lo, k as nat);
        lemma_fsum_scale(m, b, inn);
        lemma_fmul_comm(fsum(m, inn), b);
        let lhs = |i: int| fmul(b, inn(i));
        let rhs = |i: int| term(k, i);
        assert forall|i: int| 0 <= i < m implies #[trigger] lhs(i) == rhs(i) by {
            lemma_fmul_comm(b, inn(i));
        }
        lemma_fsum_eq(m, lhs, rhs);
        assert((|i: int| fmul(b, inn(i))) =~= lhs);
    }
    lemma_fsum_eq(n, outer, outer2);
    lemma_fsum_swap(n, m, term);
    assert((|k: int| fsum(m, |i: int| term(k, i))) =~= outer2);
    // the sum over i and k is the sum over the index i n + k
    let full = |x: int| fmul(v[x], beta(lo + hi, x as nat));
    let by_i = |i: int| fsum(n, |k: int| term(k, i));
    assert forall|i: int| 0 <= i < m implies #[trigger] by_i(i) == fsum(
        n,
        |k: int| full(i * n + k),
    ) by {
        let a = |k: int| term(k, i);
        let c = |k: int| full(i * n + k);
        assert forall|k: int| 0 <= k < n implies #[trigger] a(k) == c(k) by {
            lemma_beta_concat(lo, hi, k as nat, i as nat);
            assert(i * n >= 0) by {
                lemma_mul_nonnegative(i, n as int);
            }
            let x = v[i * n + k];
            lemma_fmul_assoc(x, beta(hi, i as nat), beta(lo, k as nat));
            lemma_fmul_comm(beta(hi, i as nat), beta(lo, k as nat));
        }
        lemma_fsum_eq(n, a, c);
    }
    lemma_fsum_blocks(m, n, full, by_i);
    lemma_pow2_adds(hi.len(), lo.len());
    assert((lo + hi).len() == hi.len() + lo.len());
}

/// A sum over `m * n` terms taken in blocks of `n`.
pub proof fn lemma_fsum_blocks(m: nat, n: nat, f: spec_fn(int) -> Fe, g: spec_fn(int) -> Fe)
    requires
        forall|i: int| 0 <= i < m ==> #[trigger] g(i) == fsum(n, |k: int| f(i * n + k)),
    ensures
        fsum(m * n, f) == fsum(m, g),
    decreases m,
{
    if m > 0 {
        let p = (m - 1) as nat;
        lemma_fsum_blocks(p, n, f, g);
        assert(m * n == p * n + n) by {
            lemma_mul_is_distributive_add_other_way(n as int, p as int, 1);
        }
        lemma_fsum_split(p * n, n, f);
        assert((|i: int| f(p * n + i)) =~= (|k: int| f((m - 1) * n + k)));
        assert(g(m - 1) == fsum(n, |k: int| f((m - 1) * n + k)));
    } else {
        lemma_mul_basics(n as int);
        assert(m * n == 0);
    }
}

/// The extension of a vector made of parts: those of the parts, added up with the equality
/// polynomial of the rest of the point.
pub proof fn lemma_mle_parts(
    v: Seq<Fe>,
    parts: spec_fn(int) -> Seq<Fe>,
    lo: Seq<Fe>,
    hi: Seq<Fe>,
)
    requires
        all_fe(lo),
        all_fe(hi),
        forall|i: int, k: int|
            0 <= i < pow2(hi.len()) && 0 <= k < pow2(lo.len()) ==> #[trigger] parts(i)[k] == v[i
                * pow2(lo.len()) + k],
    ensures
        mle(v, lo + hi) == fsum(
            pow2(hi.len()),
            |i: int| fmul(mle(parts(i), lo), beta(hi, i as nat)),
        ),
{
    let n = pow2(lo.len());
    let m = pow2(hi.len());
    let full = |t: int| fmul(v[t], beta(lo + hi, t as nat));
    let outer = |i: int| fmul(mle(parts(i), lo), beta(hi, i as nat));
    assert forall|i: int| 0 <= i < m implies #[trigger] outer(i) == fsum(
        n,
        |k: int| full(i * n + k),
    ) by {
        let b = beta(hi, i as nat);
        let p = |k: int| fmul(parts(i)[k], beta(lo, k as nat));
        let q = |k: int| full(i * n + k);
        let scaled = |k: int| fmul(b, p(k));
        assert forall|k: int| 0 <= k < n implies #[trigger] scaled(k) == q(k) by {
            assert(parts(i)[k] == v[i * n + k]);
            lemma_beta_concat(lo, hi, k as nat, i as nat);
            let x = v[i * n + k];
            let y = beta(lo, k as nat);
            lemma_mul_nonnegative(i, n as int);
            // b (x y) = x (y b)
            lemma_fmul_comm(b, fmul(x, y));
            lemma_fmul_assoc(x, y, b);
        }
        lemma_fsum_scale(n, b, p);
        assert((|k: int| fmul(b, p(k))) =~= scaled);
        lemma_fsum_eq(n, scaled, q);
        lemma_fmul_comm(mle(parts(i), lo), b);
    }
    lemma_fsum_blocks(m, n, full, outer);
    lemma_pow2_adds(hi.len(), lo.len());
    assert((lo + hi).len() == hi.len() + lo.len());
}

/// The extension of a vector at a point with the last coordinate `x`, where the second half does
/// not count: it is zero, or `x` is.
pub proof fn lemma_mle_half(v: Seq<Fe>, half: Seq<Fe>, lo: Seq<Fe>, x: Fe)
    requires
        all_fe(lo),
        is_fe(x),
        v.len() == 2 * pow2(lo.len()),
        forall|t: int| 0 <= t < pow2(lo.len()) ==> #[trigger] half[t] == v[t],
        x == fzero() || forall|t: int| pow2(lo.len()) <= t < v.len() ==> #[trigger] v[t] == fzero(),
    ensures
        mle(v, lo + seq![x]) == fmul(fsub(fone(), x), mle(half, lo)),
{
    let n = pow2(lo.len());
    let hi = seq![x];
    let parts = |i: int| Seq::new(n, |k: int| v[i * n + k]);
    assert(all_fe(hi));
    lemma_mle_parts(v, parts, lo, hi);
    lemma_pow2_zero();
    lemma_pow2_step(0);
    let f = |i: int| fmul(mle(parts(i), lo), beta(hi, i as nat));
    assert(fsum(2, f) == fadd(fadd(fzero(), f(0)), f(1))) by {
        reveal_with_fuel(fsum, 3);
    }
    lemma_mle_eq(parts(0), half, lo);
    // the weights of the halves
    let rest = hi.subrange(1, 1);
    lemma_beta_pair(hi, 0);
    assert(beta(rest, 0) == fone());
    lemma_fe_closed(fone(), x);
    lemma_fmul_one(fsub(fone(), x));
    lemma_fmul_one(x);
    assert(beta(hi, 0) == fsub(fone(), x));
    assert(beta(hi, 1) == x);
    assert(f(1) == fzero()) by {
        if x == fzero() {
            lemma_fmul_zero(mle(parts(1), lo));
        } else {
            let p = parts(1);
            let g = |k: int| fmul(p[k], beta(lo, k as nat));
            assert forall|k: int| 0 <= k < n implies #[trigger] g(k) == fzero() by {
                assert(p[k] == v[n + k]);
                lemma_fmul_zero(beta(lo, k as nat));
            }
            lemma_fsum_zero(n, g);
            lemma_fmul_zero(x);
        }
    }
    lemma_mle_fe(half, lo);
    lemma_fmul_comm(mle(half, lo), fsub(fone(), x));
    lemma_fe_closed(mle(half, lo), fsub(fone(), x));
    lemma_fadd_zero(f(0));
    lemma_fadd_comm(fzero(), f(0));
}

/// The extension of the values of `beta` is the equality polynomial.
pub proof fn law_betas_mle(r: Seq<Fe>, s: Seq<Fe>, v: Seq<Fe>)
    requires
        r.len() == s.len(),
        all_fe(r),
        all_fe(s),
        forall|k: int| 0 <= k < pow2(r.len()) ==> #[trigger] v[k] == beta(r, k as nat),
    ensures
        mle(v, s) == identity(r, s),
{
    let f = |k: int| fmul(v[k], beta(s, k as nat));
    let g = |k: int| fmul(beta(r, k as nat), beta(s, k as nat));
    assert forall|k: int| 0 <= k < pow2(r.len()) implies #[trigger] f(k) == g(k) by {
        assert(v[k] == beta(r, k as nat));
    }
    lemma_fsum_eq(pow2(r.len()), f, g);
    lemma_betas_inner(r, s);
}

proof fn lemma_betas_inner(r: Seq<Fe>, s: Seq<Fe>)
    requires
        r.len() == s.len(),
        all_fe(r),
        all_fe(s),
    ensures
        fsum(pow2(r.len()), |k: int| fmul(beta(r, k as nat), beta(s, k as nat))) == identity(r, s),
    decreases r.len(),
{
    let f = |k: int| fmul(beta(r, k as nat), beta(s, k as nat));
    if r.len() == 0 {
        lemma_pow2_zero();
        lemma_fmul_one(fone());
        lemma_fadd_zero(fone());
        assert(fsum(1, f) == fadd(fsum(0, f), f(0)));
    } else {
        let n = (r.len() - 1) as nat;
        let rt = r.subrange(1, r.len() as int);
        let st = s.subrange(1, s.len() as int);
        let e = eq1(r[0], s[0]);
        let g = |k: int| fmul(beta(rt, k as nat), beta(st, k as nat));
        let h = |k: int| fmul(e, g(k));
        lemma_pow2_step(n);
        assert forall|k: int| 0 <= k < pow2(n) implies fadd(#[trigger] f(2 * k), f(2 * k + 1))
            == h(k) by {
            let q = k as nat;
            lemma_beta_pair(r, q);
            lemma_beta_pair(s, q);
            let br = beta(rt, q);
            let bs = beta(st, q);
            let nr = fsub(fone(), r[0]);
            let ns = fsub(fone(), s[0]);
            lemma_fmul_swap(nr, br, ns, bs);
            lemma_fmul_swap(r[0], br, s[0], bs);
            lemma_fmul_distr(fmul(nr, ns), fmul(r[0], s[0]), g(k));
            lemma_fadd_comm(fmul(nr, ns), fmul(r[0], s[0]));
        }
        lemma_fsum_pairs(pow2(n), f, h);
        lemma_fsum_scale(pow2(n), e, g);
        lemma_betas_inner(rt, st);
        // the product over the coordinates, the first one taken apart
        let fr = |i: int| eq1(r[i], s[i]);
        let ft = |i: int| eq1(rt[i], st[i]);
        lemma_fprod_split(1, n, fr);
        lemma_fprod_eq(n, |i: int| fr(1 + i), ft);
        assert(fprod(1, fr) == fmul(fprod(0, fr), fr(0)));
        lemma_fe_closed(fmul(r[0], s[0]), fmul(fsub(fone(), r[0]), fsub(fone(), s[0])));
        lemma_fmul_one(e);
        assert(1 + n == r.len());
    }
}

/// Evaluates the multilinear extension of `evals` at `point`.
pub fn mle_evaluate(evals: &[GoldilocksExt2], point: &[GoldilocksExt2]) -> (r: GoldilocksExt2)
    requires
        evals@.len() == pow2(point@.len()),
    ensures
        r@ == mle(fviews(evals@), fviews(point@)),
{
    proof {
        assert(evals@.len() <= usize::MAX) by {
            assert(evals.len() <= usize::MAX);
        }
    }
    let betas = compute_betas_eval(point);
    let r = aggregated_rlc(evals, betas.as_slice());
    proof {
        let f = |i: int| fmul(fviews(evals@)[i], fviews(betas@)[i]);
        let g = |k: int| fmul(fviews(evals@)[k], beta(fviews(point@), k as nat));
        assert forall|k: int| 0 <= k < evals@.len() implies #[trigger] f(k) == g(k) by {
            assert(betas[k]@ == beta(fviews(point@), k as nat));
        }
        lemma_fsum_eq(evals@.len(), f, g);
    }
    r
}

/// Fixes the high variables of the multilinear extension of `evals` to `point`, and returns the
/// values over the hypercube of the polynomial in the low variables that is left.
pub fn fix_high_variables(evals: &[GoldilocksExt2], point: &[GoldilocksExt2]) -> (r: Vec<
    GoldilocksExt2,
>)
    requires
        pow2(point@.len()) <= usize::MAX,
        evals@.len() % pow2(point@.len()) == 0,
    ensures
        fviews(r@) == fix_high(
            fviews(evals@),
            evals@.len() / pow2(point@.len()),
            fviews(point@),
        ),
{
    let betas = compute_betas_eval(point);
    let m = betas.len();
    proof {
        lemma_pow2_pos(point@.len());
    }
    let n = evals.len() / m;
    let ghost v = fviews(evals@);
    let ghost hi = fviews(point@);
    proof {
        lemma_fundamental_div_mod(evals@.len() as int, m as int);
    }
    let mut out: Vec<GoldilocksExt2> = Vec::new();
    let mut k: usize = 0;
    while k < n
        invariant
            k <= n,
            m == betas.len(),
            m == pow2(point@.len()),
            evals@.len() == m * n,
            v == fviews(evals@),
            hi == fviews(point@),
            forall|i: int| 0 <= i < m ==> #[trigger] betas[i]@ == beta(hi, i as nat),
            out.len() == k,
            forall|j: int|
                0 <= j < k ==> #[trigger] out[j]@ == fsum(
                    m as nat,
                    |i: int| fmul(v[i * n + j], beta(hi, i as nat)),
                ),
        decreases n - k,
    {
        let mut acc = GoldilocksExt2::zero();
        let mut i: usize = 0;
        let mut pos: usize = k;
        let ghost f = |i: int| fmul(v[i * n + k], beta(hi, i as nat));
        while i < m
            invariant
                i <= m,
                k < n,
                m == betas.len(),
                evals@.len() == m * n,
                v == fviews(evals@),
                f == (|i: int| fmul(v[i * n + k], beta(hi, i as nat))),
                forall|i: int| 0 <= i < m ==> #[trigger] betas[i]@ == beta(hi, i as nat),
                i < m ==> pos == i * n + k,
                acc@ == fsum(i as nat, f),
            decreases m - i,
        {
            assert(i * n + k < m * n) by (nonlinear_arith)
                requires
                    i + 1 <= m,
                    k < n,
            ;
            assert(0 <= i * n) by (nonlinear_arith);
            acc = acc.plus(evals[pos].times(betas[i]));
            assert(f(i as int) == fmul(v[i * n + k], beta(hi, i as nat)));
            i = i + 1;
            if i < m {
                assert(i * n + k < m * n && i * n == (i - 1) * n + n) by (nonlinear_arith)
                    requires
                        i + 1 <= m,
                        1 <= i,
                        k < n,
                ;
                pos = pos + n;
            }
        }
        out.push(acc);
        k = k + 1;
    }
    assert(fviews(out@) =~= fix_high(v, n as nat, hi));
    out
}

} // verus!
