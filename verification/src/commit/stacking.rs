//! Vectors of equality polynomials, one behind the other.
use crate::arith::{bit, lemma_flog2_pow2};
use crate::commit::{
    beta, beta_eval_term, beta_factor, eq1, fbit, identity, lemma_eq1_bit, offset_product, start,
};
use crate::field::{
    Fe, all_fe, fmul, fone, fprod, fsum, fzero, lemma_fe_closed, lemma_fmul_assoc,
    lemma_fmul_comm, lemma_fmul_one, lemma_fmul_swap, lemma_fmul_zero, lemma_fprod_eq,
    lemma_fprod_fe, lemma_fprod_split, lemma_fsum_eq, lemma_fsum_scale, lemma_fsum_split,
    lemma_fsum_truncate,
};
use crate::mle::{law_betas_mle, lemma_beta_concat, mle};
use vstd::arithmetic::div_mod::*;
use vstd::arithmetic::mul::*;
use vstd::arithmetic::power2::*;
use vstd::prelude::*;

verus! {

/// The values of the equality polynomials of the first `m` points, each times its challenge, one
/// behind the other.
pub open spec fn stacked(challenges: Seq<Fe>, ris: Seq<Seq<Fe>>, m: nat) -> Seq<Fe>
    decreases m,
{
    if m == 0 {
        Seq::empty()
    } else {
        let i = m - 1;
        stacked(challenges, ris, (m - 1) as nat) + Seq::new(
            pow2(ris[i].len()),
            |t: int| fmul(challenges[i], beta(ris[i], t as nat)),
        )
    }
}

/// `n` entries: those of `v`, and zeros behind them.
pub open spec fn zero_filled(v: Seq<Fe>, n: nat) -> Seq<Fe> {
    Seq::new(n, |t: int| if t < v.len() { v[t] } else { fzero() })
}

/// Each length is the size of the hypercube of its point, and each vector starts at a multiple of
/// its length.
pub open spec fn aligned(lens: Seq<usize>, ris: Seq<Seq<Fe>>) -> bool {
    &&& lens.len() == ris.len()
    &&& forall|i: int|
        0 <= i < lens.len() ==> #[trigger] lens[i] == pow2(ris[i].len()) && start(lens, i as nat)
            % (lens[i] as nat) == 0
}

/// The product taken from the end.
proof fn lemma_fprod_reverse(n: nat, f: spec_fn(int) -> Fe, g: spec_fn(int) -> Fe)
    requires
        forall|i: int| 0 <= i < n ==> #[trigger] g(i) == f(n - 1 - i),
    ensures
        fprod(n, f) == fprod(n, g),
    decreases n,
{
    if n > 0 {
        let m = (n - 1) as nat;
        let h = |i: int| g(1 + i);
        assert forall|i: int| 0 <= i < m implies #[trigger] h(i) == f(m - 1 - i) by {
            assert(g(1 + i) == f(n - 1 - (1 + i)));
        }
        lemma_fprod_reverse(m, f, h);
        lemma_fprod_split(1, m, g);
        assert(fprod(1, g) == fmul(fprod(0, g), g(0)));
        assert(g(0) == f(n - 1));
        lemma_fprod_fe(m, h);
        lemma_fmul_assoc(fone(), g(0), fprod(m, h));
        lemma_fe_closed(g(0), fprod(m, h));
        lemma_fmul_one(fmul(g(0), fprod(m, h)));
        lemma_fmul_comm(fprod(m, f), f(n - 1));
        assert(1 + m == n);
    }
}

/// The digits of a multiple of `2^k`, from digit `k` on.
proof fn lemma_bit_multiple(q: nat, k: nat, t: nat)
    ensures
        bit(q * pow2(k), k + t) == bit(q, t),
{
    lemma_pow2_adds(k, t);
    lemma_pow2_pos(k);
    lemma_pow2_pos(t);
    lemma_div_denominator((q * pow2(k)) as int, pow2(k) as int, pow2(t) as int);
    lemma_div_by_multiple(q as int, pow2(k) as int);
}

/// The offset product of the slice number `q` of `2^k` entries is the equality polynomial of the
/// coordinates above the first `k` and `q`.
pub proof fn law_offset_product(k: nat, q: nat, r: Seq<Fe>)
    requires
        k <= r.len(),
        all_fe(r),
    ensures
        offset_product(pow2(k), q * pow2(k), r) == beta(r.skip(k as int), q),
{
    let n = r.len();
    let m = (n - k) as nat;
    let hi = r.skip(k as int);
    let pos = q * pow2(k);
    lemma_flog2_pow2(k);
    let f = |i: int| eq1(fbit(pos, (n - 1 - i) as nat), r[n - 1 - i]);
    let g = |t: int| beta_factor(hi, q, t);
    assert forall|t: int| 0 <= t < m implies #[trigger] g(t) == f(m - 1 - t) by {
        lemma_bit_multiple(q, k, t as nat);
        lemma_eq1_bit(bit(q, t as nat), r[k + t]);
        assert(n - 1 - (m - 1 - t) == k + t);
    }
    lemma_fprod_reverse(m, f, g);
}

/// The part that one vector contributes.
proof fn lemma_block(c: Fe, r: Seq<Fe>, point: Seq<Fe>, q: nat)
    requires
        r.len() <= point.len(),
        all_fe(r),
        all_fe(point),
    ensures
        fsum(
            pow2(r.len()),
            |t: int|
                fmul(
                    fmul(c, beta(r, t as nat)),
                    beta(point, (q * pow2(r.len()) + t) as nat),
                ),
        ) == fmul(
            fmul(c, identity(r, point)),
            offset_product(pow2(r.len()), q * pow2(r.len()), point),
        ),
{
    let k = r.len();
    let n = pow2(k);
    let lo = point.take(k as int);
    let hi = point.skip(k as int);
    assert(lo + hi =~= point);
    law_offset_product(k, q, point);
    let b = beta(hi, q);
    let d = fmul(c, b);
    let v = Seq::new(n, |t: int| beta(r, t as nat));
    law_betas_mle(r, lo, v);
    let id = identity(r, lo);
    assert(id == identity(r, point)) by {
        lemma_fprod_eq(k, |i: int| eq1(r[i], lo[i]), |i: int| eq1(r[i], point[i]));
    }
    let f = |t: int| fmul(fmul(c, beta(r, t as nat)), beta(point, (q * n + t) as nat));
    let g = |t: int| fmul(v[t], beta(lo, t as nat));
    let h = |t: int| fmul(d, g(t));
    assert forall|t: int| 0 <= t < n implies #[trigger] f(t) == h(t) by {
        lemma_beta_concat(lo, hi, t as nat, q);
        let x = beta(r, t as nat);
        let y = beta(lo, t as nat);
        // (c x) (y b) = (c b) (x y)
        lemma_fmul_comm(y, b);
        lemma_fmul_swap(c, x, b, y);
    }
    lemma_fsum_eq(n, f, h);
    lemma_fsum_scale(n, d, g);
    assert((|t: int| fmul(d, g(t))) =~= h);
    // (c b) id = (c id) b
    lemma_fmul_assoc(c, b, id);
    lemma_fmul_comm(b, id);
    lemma_fmul_assoc(c, id, b);
}

/// The first vectors end where the next starts.
proof fn lemma_stacked_len(lens: Seq<usize>, challenges: Seq<Fe>, ris: Seq<Seq<Fe>>, m: nat)
    requires
        aligned(lens, ris),
        m <= lens.len(),
    ensures
        stacked(challenges, ris, m).len() == start(lens, m),
    decreases m,
{
    if m > 0 {
        lemma_stacked_len(lens, challenges, ris, (m - 1) as nat);
        assert(lens[m - 1] == pow2(ris[m - 1].len()));
    }
}

proof fn lemma_stacked_sum(
    lens: Seq<usize>,
    challenges: Seq<Fe>,
    ris: Seq<Seq<Fe>>,
    point: Seq<Fe>,
    m: nat,
)
    requires
        aligned(lens, ris),
        m <= lens.len(),
        all_fe(point),
        forall|i: int|
            0 <= i < ris.len() ==> (#[trigger] ris[i]).len() <= point.len() && all_fe(ris[i]),
    ensures
        fsum(
            start(lens, m),
            |t: int| fmul(stacked(challenges, ris, m)[t], beta(point, t as nat)),
        ) == fsum(m, |i: int| beta_eval_term(lens, challenges, ris, point, i)),
    decreases m,
{
    let v = stacked(challenges, ris, m);
    let f = |t: int| fmul(v[t], beta(point, t as nat));
    let terms = |i: int| beta_eval_term(lens, challenges, ris, point, i);
    if m > 0 {
        let l = (m - 1) as nat;
        let i = m - 1;
        let w = stacked(challenges, ris, l);
        let s = start(lens, l);
        let n = pow2(ris[i].len());
        let g = |t: int| fmul(w[t], beta(point, t as nat));
        lemma_stacked_sum(lens, challenges, ris, point, l);
        lemma_stacked_len(lens, challenges, ris, l);
        assert(lens[i] == n);
        assert(ris[i].len() <= point.len());
        assert forall|t: int| 0 <= t < s implies #[trigger] f(t) == g(t) by {
            assert(v[t] == w[t]);
        }
        lemma_fsum_eq(s, f, g);
        lemma_fsum_split(s, n, f);
        // the last vector starts at a multiple of its length
        lemma_pow2_pos(ris[i].len());
        let q = s / n;
        lemma_fundamental_div_mod(s as int, n as int);
        assert(s == q * n) by {
            lemma_mul_is_commutative(q as int, n as int);
        }
        let c = challenges[i];
        let block = |t: int| f(s + t);
        let want = |t: int|
            fmul(fmul(c, beta(ris[i], t as nat)), beta(point, (q * n + t) as nat));
        assert forall|t: int| 0 <= t < n implies #[trigger] block(t) == want(t) by {
            assert(v[s + t] == fmul(c, beta(ris[i], t as nat)));
        }
        lemma_fsum_eq(n, block, want);
        assert((|t: int| f(s + t)) =~= block);
        lemma_block(c, ris[i], point, q);
        assert(terms(i) == fsum(n, want));
    }
}

/// The evaluation that the verifier computes from the claims is that of the vector of all equality
/// polynomials, each times its challenge, one behind the other and filled up with zeros.
pub proof fn law_beta_eval_poly(
    lens: Seq<usize>,
    challenges: Seq<Fe>,
    ris: Seq<Seq<Fe>>,
    point: Seq<Fe>,
)
    requires
        aligned(lens, ris),
        challenges.len() == lens.len(),
        start(lens, lens.len()) <= pow2(point.len()),
        all_fe(point),
        forall|i: int|
            0 <= i < ris.len() ==> (#[trigger] ris[i]).len() <= point.len() && all_fe(ris[i]),
    ensures
        fsum(
            challenges.len(),
            |i: int| beta_eval_term(lens, challenges, ris, point, i),
        ) == mle(
            zero_filled(stacked(challenges, ris, lens.len()), pow2(point.len())),
            point,
        ),
{
    let m = lens.len();
    let n = pow2(point.len());
    let v = stacked(challenges, ris, m);
    let z = zero_filled(v, n);
    lemma_stacked_len(lens, challenges, ris, m);
    lemma_stacked_sum(lens, challenges, ris, point, m);
    let f = |t: int| fmul(z[t], beta(point, t as nat));
    let g = |t: int| fmul(v[t], beta(point, t as nat));
    assert forall|t: int| v.len() <= t < n implies #[trigger] f(t) == fzero() by {
        lemma_fmul_zero(beta(point, t as nat));
    }
    lemma_fsum_truncate(n, v.len(), f);
    assert forall|t: int| 0 <= t < v.len() implies #[trigger] f(t) == g(t) by {
        assert(z[t] == v[t]);
    }
    lemma_fsum_eq(v.len(), f, g);
}

} // verus!
