//! Multilinear equality polynomials and random linear combinations of claims.
pub mod error;
pub mod stacking;

use crate::arith::{bit, flog2, ilog2, lemma_pow2_mono, lemma_pow2_step, lemma_pow2_zero};
use crate::field::{
    Fe, GoldilocksExt2, all_fe, fadd, fmul, fone, fprod, fsub, fsum, fviews, fviews2, fzero,
    is_fe, lemma_fadd_assoc, lemma_fadd_zero, lemma_fe_closed, lemma_fmul_distr,
    lemma_fmul_distr_sub, lemma_fmul_one, lemma_fmul_zero, lemma_fprod_eq, lemma_fprod_fe,
    lemma_fprod_split, lemma_fsub, lemma_fviews_fe,
};
use vstd::arithmetic::div_mod::*;
use vstd::arithmetic::power2::*;
use vstd::prelude::*;

verus! {

/// The field element of a binary digit.
pub open spec fn fbit(x: nat, t: nat) -> Fe {
    if bit(x, t) {
        fone()
    } else {
        fzero()
    }
}

/// The `n` lowest binary digits of `x` as field elements, the lowest first.
pub open spec fn fbits(x: nat, n: nat) -> Seq<Fe> {
    Seq::new(n, |t: int| fbit(x, t as nat))
}

/// The equality polynomial in one variable: `a * b + (1 - a) * (1 - b)`.
pub open spec fn eq1(a: Fe, b: Fe) -> Fe {
    fadd(fmul(a, b), fmul(fsub(fone(), a), fsub(fone(), b)))
}

pub open spec fn min_len(a: Seq<Fe>, b: Seq<Fe>) -> nat {
    if a.len() <= b.len() {
        a.len()
    } else {
        b.len()
    }
}

/// The equality polynomial of two points, over the coordinates that both have.
pub open spec fn identity(r1: Seq<Fe>, r2: Seq<Fe>) -> Fe {
    fprod(min_len(r1, r2), |i: int| eq1(r1[i], r2[i]))
}

/// The factor of coordinate `t` in the equality polynomial of `r` and the digits of `k`.
pub open spec fn beta_factor(r: Seq<Fe>, k: nat, t: int) -> Fe {
    if bit(k, t as nat) {
        r[t]
    } else {
        fsub(fone(), r[t])
    }
}

/// The equality polynomial of the point `r` and the vertex of the hypercube numbered `k`.
pub open spec fn beta(r: Seq<Fe>, k: nat) -> Fe {
    fprod(r.len(), |t: int| beta_factor(r, k, t))
}

/// The part of the equality polynomial that selects the slice which starts at `pos` and holds
/// `size` entries: the product over the coordinates above those that address the slice.
pub open spec fn offset_product(size: nat, pos: nat, r: Seq<Fe>) -> Fe {
    fprod(
        (r.len() - flog2(size)) as nat,
        |i: int| eq1(fbit(pos, (r.len() - 1 - i) as nat), r[r.len() - 1 - i]),
    )
}

/// `x[0] * y[0] + x[1] * y[1] + ...` over the first `n` entries.
pub open spec fn inner(n: nat, x: Seq<Fe>, y: Seq<Fe>) -> Fe {
    fsum(n, |i: int| fmul(x[i], y[i]))
}

/// The sum of the first `n` lengths.
pub open spec fn start(lens: Seq<usize>, n: nat) -> nat
    decreases n,
{
    if n == 0 {
        0
    } else {
        start(lens, (n - 1) as nat) + lens[n - 1] as nat
    }
}

/// The weight of claim `i` in the evaluation of a matrix of equality polynomials.
pub open spec fn beta_eval_term(
    lens: Seq<usize>,
    challenges: Seq<Fe>,
    ris: Seq<Seq<Fe>>,
    point: Seq<Fe>,
    i: int,
) -> Fe {
    let base = fmul(challenges[i], identity(ris[i], point));
    if i < lens.len() {
        fmul(base, offset_product(lens[i] as nat, start(lens, i as nat), point))
    } else {
        base
    }
}

// ---------------------------------------------------------------------------------------
// Lemmas
// ---------------------------------------------------------------------------------------

/// Dropping the lowest digit shifts the others down.
pub proof fn lemma_bit_shift(x: nat, t: nat)
    ensures
        bit(x, t + 1) == bit(x / 2, t),
        bit(x, 0) == (x % 2 == 1),
{
    lemma_pow2_zero();
    lemma_pow2_step(t);
    lemma_div_denominator(x as int, 2, pow2(t) as int);
}

pub proof fn lemma_eq1_bit(b: bool, r: Fe)
    requires
        is_fe(r),
    ensures
        b ==> eq1(r, fone()) == r && eq1(fone(), r) == r,
        !b ==> eq1(r, fzero()) == fsub(fone(), r) && eq1(fzero(), r) == fsub(fone(), r),
{
    lemma_fe_closed(fone(), r);
    lemma_fsub(fone(), fone());
    lemma_fadd_zero(fone());
    lemma_fmul_one(r);
    lemma_fmul_zero(r);
    lemma_fmul_zero(fsub(fone(), r));
    lemma_fmul_one(fsub(fone(), r));
    lemma_fadd_zero(r);
    lemma_fadd_zero(fsub(fone(), r));
}

/// The equality polynomial against the digits of `k` is `beta` of `k`.
pub proof fn law_beta_is_identity(r: Seq<Fe>, k: nat)
    requires
        all_fe(r),
    ensures
        beta(r, k) == identity(r, fbits(k, r.len())),
{
    let b = fbits(k, r.len());
    let f = |t: int| beta_factor(r, k, t);
    let g = |i: int| eq1(r[i], b[i]);
    assert forall|t: int| 0 <= t < r.len() implies #[trigger] f(t) == g(t) by {
        lemma_eq1_bit(bit(k, t as nat), r[t]);
    }
    lemma_fprod_eq(r.len(), f, g);
}

/// Peeling the first coordinate off `beta`.
pub proof fn lemma_beta_cons(r: Seq<Fe>, k: nat)
    requires
        r.len() > 0,
        all_fe(r),
    ensures
        beta(r, k) == fmul(beta_factor(r, k, 0), beta(r.subrange(1, r.len() as int), k / 2)),
{
    let n = (r.len() - 1) as nat;
    let s = r.subrange(1, r.len() as int);
    let f = |t: int| beta_factor(r, k, t);
    let g = |t: int| f(1 + t);
    let h = |t: int| beta_factor(s, k / 2, t);
    lemma_fprod_split(1, n, f);
    assert(fprod(1, f) == fmul(fprod(0, f), f(0)));
    lemma_fe_closed(fone(), r[0]);
    lemma_fmul_one(f(0));
    assert forall|t: int| 0 <= t < n implies #[trigger] g(t) == h(t) by {
        lemma_bit_shift(k, t as nat);
    }
    lemma_fprod_eq(n, g, h);
    assert(1 + n == r.len());
}

pub proof fn lemma_beta_fe(r: Seq<Fe>, k: nat)
    ensures
        is_fe(beta(r, k)),
{
    lemma_fprod_fe(r.len(), |t: int| beta_factor(r, k, t));
}

/// Two points of zeros and ones have equality 1 where they agree on the coordinates that both
/// have, and 0 otherwise.
pub proof fn law_identity_is_equality(r1: Seq<Fe>, r2: Seq<Fe>)
    requires
        forall|i: int| 0 <= i < r1.len() ==> #[trigger] r1[i] == fzero() || r1[i] == fone(),
        forall|i: int| 0 <= i < r2.len() ==> #[trigger] r2[i] == fzero() || r2[i] == fone(),
    ensures
        identity(r1, r2) == if forall|i: int|
            0 <= i < min_len(r1, r2) ==> #[trigger] r1[i] == r2[i] {
            fone()
        } else {
            fzero()
        },
{
    lemma_identity_prefix(r1, r2, min_len(r1, r2));
}

proof fn lemma_identity_prefix(r1: Seq<Fe>, r2: Seq<Fe>, n: nat)
    requires
        n <= r1.len(),
        n <= r2.len(),
        forall|i: int| 0 <= i < r1.len() ==> #[trigger] r1[i] == fzero() || r1[i] == fone(),
        forall|i: int| 0 <= i < r2.len() ==> #[trigger] r2[i] == fzero() || r2[i] == fone(),
    ensures
        fprod(n, |i: int| eq1(r1[i], r2[i])) == if forall|i: int|
            0 <= i < n ==> #[trigger] r1[i] == r2[i] {
            fone()
        } else {
            fzero()
        },
    decreases n,
{
    let f = |i: int| eq1(r1[i], r2[i]);
    if n > 0 {
        let m = (n - 1) as nat;
        lemma_identity_prefix(r1, r2, m);
        lemma_eq1_bit(true, r1[n - 1]);
        lemma_eq1_bit(false, r1[n - 1]);
        lemma_fsub(fone(), fone());
        lemma_fadd_zero(fone());
        lemma_fmul_one(fone());
        lemma_fmul_zero(fone());
        lemma_fmul_zero(fzero());
        assert(f(n - 1) == if r1[n - 1] == r2[n - 1] {
            fone()
        } else {
            fzero()
        });
        if forall|i: int| 0 <= i < m ==> #[trigger] r1[i] == r2[i] {
            if r1[n - 1] == r2[n - 1] {
                assert(forall|i: int| 0 <= i < n ==> #[trigger] r1[i] == r2[i]);
            } else {
                assert(!(forall|i: int| 0 <= i < n ==> #[trigger] r1[i] == r2[i]));
            }
        } else {
            let i = choose|i: int| 0 <= i < m && #[trigger] r1[i] != r2[i];
            assert(r1[i] != r2[i]);
        }
    }
}

/// The values of `beta` over all vertices of the hypercube add up to 1.
pub proof fn law_betas_sum_to_one(r: Seq<Fe>)
    requires
        all_fe(r),
    ensures
        fsum(pow2(r.len()), |k: int| beta(r, k as nat)) == fone(),
    decreases r.len(),
{
    let f = |k: int| beta(r, k as nat);
    if r.len() == 0 {
        lemma_pow2_zero();
        assert(fsum(1, f) == fadd(fsum(0, f), f(0)));
        lemma_fadd_zero(fone());
    } else {
        let n = (r.len() - 1) as nat;
        let s = r.subrange(1, r.len() as int);
        let g = |k: int| beta(s, k as nat);
        law_betas_sum_to_one(s);
        lemma_pow2_step(n);
        assert forall|k: int| 0 <= k < pow2(n) implies fadd(#[trigger] f(2 * k), f(2 * k + 1)) == g(
            k,
        ) by {
            lemma_beta_pair(r, k as nat);
        }
        lemma_fsum_pairs(pow2(n), f, g);
    }
}

/// The two vertices that differ in the first coordinate share one value of `beta`.
pub proof fn lemma_beta_pair(r: Seq<Fe>, k: nat)
    requires
        r.len() > 0,
        all_fe(r),
    ensures
        ({
            let s = r.subrange(1, r.len() as int);
            &&& beta(r, 2 * k) == fmul(fsub(fone(), r[0]), beta(s, k))
            &&& beta(r, 2 * k + 1) == fmul(r[0], beta(s, k))
            &&& fadd(beta(r, 2 * k), beta(r, 2 * k + 1)) == beta(s, k)
        }),
{
    let s = r.subrange(1, r.len() as int);
    lemma_beta_cons(r, 2 * k);
    lemma_beta_cons(r, 2 * k + 1);
    lemma_bit_shift(2 * k, 0);
    lemma_bit_shift(2 * k + 1, 0);
    assert((2 * k) / 2 == k && (2 * k + 1) / 2 == k);
    let b = beta(s, k);
    lemma_beta_fe(s, k);
    lemma_fmul_distr(fsub(fone(), r[0]), r[0], b);
    lemma_fsub(fone(), r[0]);
    lemma_fmul_one(b);
}

/// A sum over `2n` terms taken in pairs.
pub proof fn lemma_fsum_pairs(n: nat, f: spec_fn(int) -> Fe, g: spec_fn(int) -> Fe)
    requires
        forall|k: int| 0 <= k < n ==> fadd(#[trigger] f(2 * k), f(2 * k + 1)) == g(k),
    ensures
        fsum(2 * n, f) == fsum(n, g),
    decreases n,
{
    if n > 0 {
        let m = (n - 1) as nat;
        lemma_fsum_pairs(m, f, g);
        assert(fsum(2 * n, f) == fadd(fsum((2 * n - 1) as nat, f), f(2 * n - 1)));
        assert(fsum((2 * n - 1) as nat, f) == fadd(fsum(2 * m, f), f((2 * m) as int)));
        lemma_fadd_assoc(fsum(2 * m, f), f(2 * (n - 1)), f(2 * (n - 1) + 1));
        assert(fadd(f(2 * (n - 1)), f(2 * (n - 1) + 1)) == g(n - 1));
    }
}

// ---------------------------------------------------------------------------------------
// Functions
// ---------------------------------------------------------------------------------------

/// The `bitlen` lowest binary digits of `num` as field elements, the lowest first.
pub fn to_bits(num: usize, bitlen: usize) -> (bits: Vec<GoldilocksExt2>)
    ensures
        fviews(bits@) == fbits(num as nat, bitlen as nat),
{
    let mut bits: Vec<GoldilocksExt2> = Vec::new();
    let mut n: usize = num;
    let mut i: usize = 0;
    proof {
        lemma_pow2_zero();
    }
    while i < bitlen
        invariant
            i <= bitlen,
            bits.len() == i,
            n as nat == num as nat / pow2(i as nat),
            forall|j: int| 0 <= j < i ==> #[trigger] bits[j]@ == fbit(num as nat, j as nat),
        decreases bitlen - i,
    {
        let b = if n % 2 == 1 {
            GoldilocksExt2::one()
        } else {
            GoldilocksExt2::zero()
        };
        bits.push(b);
        proof {
            lemma_pow2_step(i as nat);
            lemma_div_denominator(num as int, pow2(i as nat) as int, 2);
        }
        n = n / 2;
        i = i + 1;
    }
    assert(fviews(bits@) =~= fbits(num as nat, bitlen as nat));
    bits
}

/// The vector of the values of `beta(r, k)` for every vertex `k` of the hypercube, built by
/// doubling: each coordinate, from the last to the first, splits every value in two.
pub fn compute_betas_eval(r: &[GoldilocksExt2]) -> (betas: Vec<GoldilocksExt2>)
    requires
        pow2(r@.len()) <= usize::MAX,
    ensures
        betas.len() == pow2(r@.len()),
        forall|k: int|
            0 <= k < betas.len() ==> #[trigger] betas[k]@ == beta(fviews(r@), k as nat),
{
    let n = r.len();
    let ghost rv = fviews(r@);
    let mut betas: Vec<GoldilocksExt2> = Vec::new();
    betas.push(GoldilocksExt2::one());
    let mut i: usize = 0;
    proof {
        lemma_pow2_zero();
        lemma_fviews_fe(r@);
        assert(rv.subrange(n as int, n as int).len() == 0);
    }
    while i < n
        invariant
            n == r@.len(),
            i <= n,
            rv == fviews(r@),
            all_fe(rv),
            pow2(r@.len()) <= usize::MAX,
            betas.len() == pow2(i as nat),
            forall|k: int|
                0 <= k < betas.len() ==> #[trigger] betas[k]@ == beta(
                    rv.subrange(n - i, n as int),
                    k as nat,
                ),
        decreases n - i,
    {
        let current_size = betas.len();
        let r_elem = r[n - 1 - i];
        let mut next: Vec<GoldilocksExt2> = Vec::new();
        let mut j: usize = 0;
        let ghost s = rv.subrange(n - i, n as int);
        let ghost s2 = rv.subrange(n - i - 1, n as int);
        proof {
            lemma_pow2_step(i as nat);
            lemma_pow2_mono(i as nat + 1, r@.len());
            assert(s2.subrange(1, s2.len() as int) =~= s);
        }
        while j < current_size
            invariant
                current_size == betas.len(),
                2 * current_size <= usize::MAX,
                j <= current_size,
                next.len() == 2 * j,
                s2.len() > 0,
                all_fe(s2),
                r_elem@ == s2[0],
                s2.subrange(1, s2.len() as int) == s,
                forall|k: int| 0 <= k < betas.len() ==> #[trigger] betas[k]@ == beta(s, k as nat),
                forall|k: int| 0 <= k < next.len() ==> #[trigger] next[k]@ == beta(s2, k as nat),
            decreases current_size - j,
        {
            let t = r_elem.times(betas[j]);
            let u = betas[j].minus(t);
            proof {
                lemma_beta_pair(s2, j as nat);
                lemma_beta_fe(s, j as nat);
                // b - r b = (1 - r) b
                lemma_fmul_distr_sub(fone(), r_elem@, beta(s, j as nat));
                lemma_fmul_one(beta(s, j as nat));
            }
            next.push(u);
            next.push(t);
            j = j + 1;
        }
        betas = next;
        i = i + 1;
    }
    assert(rv.subrange(0, n as int) =~= rv);
    betas
}

/// The linear combination of `claims` with the weights `challenges`.
pub fn aggregated_rlc(claims: &[GoldilocksExt2], challenges: &[GoldilocksExt2]) -> (r:
    GoldilocksExt2)
    requires
        claims@.len() == challenges@.len(),
    ensures
        r@ == inner(claims@.len(), fviews(claims@), fviews(challenges@)),
{
    let mut acc = GoldilocksExt2::zero();
    let mut i: usize = 0;
    let ghost f = |i: int| fmul(fviews(claims@)[i], fviews(challenges@)[i]);
    while i < claims.len()
        invariant
            i <= claims.len(),
            claims@.len() == challenges@.len(),
            f == (|i: int| fmul(fviews(claims@)[i], fviews(challenges@)[i])),
            acc@ == fsum(i as nat, f),
        decreases claims.len() - i,
    {
        acc = acc.plus(claims[i].times(challenges[i]));
        i = i + 1;
    }
    acc
}

/// The equality polynomial of two points, over the coordinates that both have: 1 for equal
/// points of the hypercube, 0 for different ones.
pub fn identity_eval(r1: &[GoldilocksExt2], r2: &[GoldilocksExt2]) -> (r: GoldilocksExt2)
    ensures
        r@ == identity(fviews(r1@), fviews(r2@)),
{
    let n = if r1.len() <= r2.len() {
        r1.len()
    } else {
        r2.len()
    };
    let mut eval = GoldilocksExt2::one();
    let mut i: usize = 0;
    let ghost f = |i: int| eq1(fviews(r1@)[i], fviews(r2@)[i]);
    while i < n
        invariant
            i <= n,
            n <= r1@.len(),
            n <= r2@.len(),
            f == (|i: int| eq1(fviews(r1@)[i], fviews(r2@)[i])),
            eval@ == fprod(i as nat, f),
        decreases n - i,
    {
        let one = GoldilocksExt2::one();
        let factor = r1[i].times(r2[i]).plus(one.minus(r1[i]).times(one.minus(r2[i])));
        assert(factor@ == f(i as int));
        eval = eval.times(factor);
        i = i + 1;
    }
    eval
}

/// The part of the equality polynomial at `rand_vec` that selects the slice of `claim_size`
/// entries which starts at `pos`.
pub fn get_offset_product(claim_size: usize, pos: usize, rand_vec: &[GoldilocksExt2]) -> (r:
    GoldilocksExt2)
    requires
        claim_size > 0,
        flog2(claim_size as nat) <= rand_vec@.len(),
    ensures
        r@ == offset_product(claim_size as nat, pos as nat, fviews(rand_vec@)),
{
    let n = rand_vec.len();
    let bits = to_bits(pos, n);
    let num_vars_needed = n - ilog2(claim_size);
    let mut prod = GoldilocksExt2::one();
    let mut i: usize = 0;
    assert(fviews(bits@).len() == n);
    let ghost rv = fviews(rand_vec@);
    let ghost f = |i: int| eq1(fbit(pos as nat, (rv.len() - 1 - i) as nat), rv[rv.len() - 1 - i]);
    while i < num_vars_needed
        invariant
            n == rand_vec@.len(),
            rv == fviews(rand_vec@),
            i <= num_vars_needed <= n,
            fviews(bits@) == fbits(pos as nat, n as nat),
            bits.len() == n,
            f == (|i: int|
                eq1(fbit(pos as nat, (rv.len() - 1 - i) as nat), rv[rv.len() - 1 - i])),
            prod@ == fprod(i as nat, f),
        decreases num_vars_needed - i,
    {
        let bit = bits[n - 1 - i];
        let r_i = rand_vec[n - 1 - i];
        let one = GoldilocksExt2::one();
        assert(bit@ == fviews(bits@)[n - 1 - i]);
        let factor = bit.times(r_i).plus(one.minus(bit).times(one.minus(r_i)));
        assert(factor@ == f(i as int));
        prod = prod.times(factor);
        i = i + 1;
    }
    prod
}

/// The evaluation at `point` of the sum of the equality polynomials of the points `ris`, each
/// weighted by its challenge and, where `poly_lens` names its length, placed at its offset.
pub fn compute_beta_eval_poly(
    poly_lens: Vec<usize>,
    fs_challenges: &[GoldilocksExt2],
    ris: &[Vec<GoldilocksExt2>],
    point: &[GoldilocksExt2],
) -> (r: GoldilocksExt2)
    requires
        poly_lens@.len() <= fs_challenges@.len(),
        poly_lens@.len() <= ris@.len(),
        forall|i: int|
            0 <= i < poly_lens@.len() ==> #[trigger] poly_lens@[i] > 0 && flog2(
                poly_lens@[i] as nat,
            ) <= point@.len(),
        start(poly_lens@, poly_lens@.len()) <= usize::MAX,
    ensures
        r@ == fsum(
            if fs_challenges@.len() <= ris@.len() {
                fs_challenges@.len()
            } else {
                ris@.len()
            },
            |i: int|
                beta_eval_term(
                    poly_lens@,
                    fviews(fs_challenges@),
                    fviews2(ris@),
                    fviews(point@),
                    i,
                ),
        ),
{
    let n = if fs_challenges.len() <= ris.len() {
        fs_challenges.len()
    } else {
        ris.len()
    };
    let mut acc = GoldilocksExt2::zero();
    let mut pos: usize = 0;
    let mut i: usize = 0;
    let ghost f = |i: int|
        beta_eval_term(poly_lens@, fviews(fs_challenges@), fviews2(ris@), fviews(point@), i);
    while i < n
        invariant
            i <= n,
            n <= fs_challenges@.len(),
            n <= ris@.len(),
            poly_lens@.len() <= n,
            forall|i: int|
                0 <= i < poly_lens@.len() ==> #[trigger] poly_lens@[i] > 0 && flog2(
                    poly_lens@[i] as nat,
                ) <= point@.len(),
            start(poly_lens@, poly_lens@.len()) <= usize::MAX,
            i <= poly_lens@.len() ==> pos == start(poly_lens@, i as nat),
            f == (|i: int|
                beta_eval_term(
                    poly_lens@,
                    fviews(fs_challenges@),
                    fviews2(ris@),
                    fviews(point@),
                    i,
                )),
            acc@ == fsum(i as nat, f),
        decreases n - i,
    {
        let mut eval = fs_challenges[i].times(identity_eval(ris[i].as_slice(), point));
        if i < poly_lens.len() {
            let size = poly_lens[i];
            eval = eval.times(get_offset_product(size, pos, point));
            proof {
                lemma_start_mono(poly_lens@, i as nat + 1, poly_lens@.len());
            }
            pos = pos + size;
        }
        assert(eval@ == f(i as int));
        acc = acc.plus(eval);
        i = i + 1;
    }
    acc
}

proof fn lemma_start_mono(lens: Seq<usize>, a: nat, b: nat)
    requires
        a <= b,
    ensures
        start(lens, a) <= start(lens, b),
    decreases b - a,
{
    if a < b {
        lemma_start_mono(lens, a, (b - 1) as nat);
    }
}

} // verus!
