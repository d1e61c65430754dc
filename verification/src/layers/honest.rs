//! Proofs of layers that were computed as they should be: what the verifier checks holds, and the
//! claims that are left are true.
use crate::claim::{ClaimView, cviews};
use crate::commit::{beta, identity};
use crate::field::{
    Fe, all_fe, fint, fmul, fone, fpow, fprod, fsub, fsum, fviews2, lemma_fe_closed,
    lemma_fmul_assoc, lemma_fmul_comm, lemma_fmul_one, lemma_fprod_eq, lemma_fprod_fe,
    lemma_fsum_eq,
};
use crate::iop::honest::true_of;
use crate::layers::activation::{
    ActivationColumns, ActivationOutcome, activation_columns, activation_outcome, relu_out,
};
use crate::layers::conv_steps::reduced;
use crate::layers::dense::{dense_fits, dense_ready, dense_result, law_dense_claim};
use crate::layers::fft_conv::fft_filter;
use crate::layers::provable::{betas, rlc, term_at};
use crate::layers::requant_steps::{accumulation, final_values};
use crate::mle::{fix_high, law_betas_mle, law_fix_high, lemma_mle_eq, mle};
use crate::ops::lemma_flat;
use crate::quantization::{Element, fints};
use crate::tensor::TensorView;
use vstd::arithmetic::power2::*;
use vstd::prelude::*;

verus! {

/// The value at a point of a product of polynomials with a coefficient.
pub open spec fn term_eval(coefficient: Fe, factors: Seq<Seq<Fe>>, point: Seq<Fe>) -> Fe {
    fmul(coefficient, fprod(factors.len(), |j: int| mle(factors[j], point)))
}

proof fn lemma_two(a: Fe, b: Fe, f: spec_fn(int) -> Fe)
    requires
        f(0) == a,
        f(1) == b,
    ensures
        fprod(2, f) == fmul(a, b),
{
    reveal_with_fuel(fprod, 3);
    lemma_fmul_assoc(fone(), a, b);
    lemma_fe_closed(a, b);
    lemma_fmul_one(fmul(a, b));
}

// ---------------------------------------------------------------------------------------
// Dense layers
// ---------------------------------------------------------------------------------------

/// What the prover of a dense layer puts into the sum-check: the matrix with its rows fixed at the
/// point of the claim, and the input.
pub open spec fn dense_factors(
    m: TensorView<Element>,
    x: TensorView<Element>,
    p: Seq<Fe>,
) -> Seq<Seq<Fe>> {
    seq![fix_high(fints(m.data), m.shape[1] as nat, p), fints(x.data)]
}

/// The proof of a dense layer that computed its output is accepted, and leaves true claims. The
/// sum-check starts from the right value: the claim about the output less that about the bias. The
/// values of the matrix and of the input at its point multiply to what it expects. And these are
/// the values of the matrix at the point of the claim about it, and of the input at that about the
/// input.
pub proof fn law_dense_complete(
    m: TensorView<Element>,
    b: TensorView<Element>,
    x: TensorView<Element>,
    p: Seq<Fe>,
    s: Seq<Fe>,
)
    requires
        dense_ready(m, b, x),
        dense_fits(m, b, x),
        pow2(p.len()) == m.shape[0],
        pow2(s.len()) == m.shape[1],
        all_fe(p),
        all_fe(s),
    ensures
        ({
            let factors = dense_factors(m, x, p);
            let evals = seq![mle(factors[0], s), mle(factors[1], s)];
            &&& fsub(
                mle(fints(dense_result(m, b, x).data), p),
                mle(fints(b.data), p),
            ) == fsum(pow2(s.len()), |k: int| term_at(fone(), factors, k))
            &&& fprod(2, |i: int| evals[i]) == term_eval(fone(), factors, s)
            &&& evals[0] == mle(fints(m.data), s + p)
            &&& evals[1] == mle(fints(x.data), s)
        }),
{
    let factors = dense_factors(m, x, p);
    let n = m.shape[1] as nat;
    law_dense_claim(m, b, x, p);
    let f = |k: int| fmul(fix_high(fints(m.data), x.data.len(), p)[k], fints(x.data)[k]);
    let g = |k: int| term_at(fone(), factors, k);
    assert forall|k: int| 0 <= k < n implies #[trigger] f(k) == g(k) by {
        let h = |i: int| factors[i][k];
        lemma_two(factors[0][k], factors[1][k], h);
        lemma_fe_closed(factors[0][k], factors[1][k]);
        lemma_fmul_one(fmul(factors[0][k], factors[1][k]));
    }
    lemma_fsum_eq(n, f, g);
    let evals = seq![mle(factors[0], s), mle(factors[1], s)];
    let e = |i: int| evals[i];
    let t = |j: int| mle(factors[j], s);
    lemma_fprod_eq(2, e, t);
    lemma_fprod_fe(2, t);
    lemma_fmul_one(fprod(2, t));
    law_fix_high(fints(m.data), s, p);
}

// ---------------------------------------------------------------------------------------
// Requantisations
// ---------------------------------------------------------------------------------------

/// The values of the columns of a requantisation at a point: input column, output column, chunks.
pub open spec fn column_values(
    clamping: Seq<Seq<Fe>>,
    shifted: Seq<Seq<Fe>>,
    s: Seq<Fe>,
) -> Seq<Fe> {
    seq![mle(clamping[0], s), mle(clamping[1], s)] + Seq::new(
        shifted.len(),
        |j: int| mle(shifted[j], s),
    )
}

/// The last check on a requantisation holds where the prover sends the values of the columns: they
/// give the value of the polynomial of the sum-check at its point.
pub proof fn law_requant_complete(
    last_point: Seq<Fe>,
    clamping_point: Seq<Fe>,
    shifted_point: Seq<Fe>,
    clamping: Seq<Seq<Fe>>,
    shifted: Seq<Seq<Fe>>,
    c: Fe,
    s: Seq<Fe>,
)
    requires
        last_point.len() == s.len(),
        clamping_point.len() == s.len(),
        shifted_point.len() == s.len(),
        clamping.len() == 2,
        all_fe(last_point),
        all_fe(clamping_point),
        all_fe(shifted_point),
        all_fe(s),
    ensures
        ({
            let terms = accumulation(
                last_point,
                clamping_point,
                shifted_point,
                clamping,
                shifted,
            );
            fsum(terms.len(), |i: int| term_eval(fpow(c, i as nat), terms[i], s)) == rlc(
                final_values(
                    identity(last_point, s),
                    identity(clamping_point, s),
                    identity(shifted_point, s),
                    column_values(clamping, shifted, s),
                ),
                c,
            )
        }),
{
    let terms = accumulation(last_point, clamping_point, shifted_point, clamping, shifted);
    let evals = column_values(clamping, shifted, s);
    let values = final_values(
        identity(last_point, s),
        identity(clamping_point, s),
        identity(shifted_point, s),
        evals,
    );
    law_betas_mle(last_point, s, betas(last_point));
    law_betas_mle(clamping_point, s, betas(clamping_point));
    law_betas_mle(shifted_point, s, betas(shifted_point));
    let f = |i: int| term_eval(fpow(c, i as nat), terms[i], s);
    let g = |i: int| fmul(fpow(c, i as nat), values[i]);
    assert(values.len() == terms.len());
    assert forall|i: int| 0 <= i < terms.len() implies #[trigger] f(i) == g(i) by {
        let h = |j: int| mle(terms[i][j], s);
        lemma_two(mle(terms[i][0], s), mle(terms[i][1], s), h);
        lemma_fmul_comm(mle(terms[i][0], s), mle(terms[i][1], s));
    }
    lemma_fsum_eq(terms.len(), f, g);
}

// ---------------------------------------------------------------------------------------
// Convolutions
// ---------------------------------------------------------------------------------------

/// The claim about the filters that a convolution leaves is true: the filters added up with the
/// equality polynomial, at the first part of the point, are the filters at the whole point.
pub proof fn law_filter_claim(f: TensorView<Element>, rand: Seq<Fe>, hi: Seq<Fe>)
    requires
        fft_filter(f),
        f.og_shape[2] * f.og_shape[2] == pow2(rand.len()),
        f.shape[0] * f.shape[1] == pow2(hi.len()),
        all_fe(rand),
        all_fe(hi),
    ensures
        mle(reduced(f, betas(hi)), rand) == mle(fints(f.data), rand + hi),
{
    let k2 = (f.og_shape[2] * f.og_shape[2]) as nat;
    let v = fints(f.data);
    let a = reduced(f, betas(hi));
    let b = fix_high(v, k2, hi);
    assert forall|e: int| 0 <= e < k2 implies #[trigger] a[e] == b[e] by {
        let g = |c: int| fmul(betas(hi)[c], fint(f.data[c * k2 + e] as int));
        let h = |i: int| fmul(v[i * k2 + e], beta(hi, i as nat));
        assert forall|c: int| 0 <= c < pow2(hi.len()) implies #[trigger] g(c) == h(c) by {
            lemma_flat(c, e, pow2(hi.len()) as int, k2 as int);
            vstd::arithmetic::mul::lemma_mul_is_associative(
                f.shape[0] as int,
                f.shape[1] as int,
                k2 as int,
            );
            lemma_fmul_comm(betas(hi)[c], v[c * k2 + e]);
        }
        lemma_fsum_eq(pow2(hi.len()), g, h);
    }
    lemma_mle_eq(a, b, rand);
    law_fix_high(v, rand, hi);
}

// ---------------------------------------------------------------------------------------
// Activations
// ---------------------------------------------------------------------------------------

/// The proof of an activation that computed its output leaves true claims, where the lookup and the
/// accumulation left true ones. The claims that are accumulated are all about the output, and they
/// are true. Those for the commitments are true of the looked up columns, and the claim about the
/// input is true of the input.
pub proof fn law_activation_complete(
    x: TensorView<Element>,
    columns: ActivationColumns,
    last: ClaimView,
    lookup: Seq<ClaimView>,
    accumulated: ClaimView,
    r: ActivationOutcome,
)
    requires
        activation_columns(x.data, relu_out(x).data, columns),
        true_of(last, fints(relu_out(x).data)),
        lookup.len() == 2,
        forall|i: int|
            0 <= i < 2 ==> true_of(#[trigger] lookup[i], fviews2(columns.columns@)[i]),
        true_of(accumulated, fints(relu_out(x).data)),
        activation_outcome(r, lookup[0], accumulated),
    ensures
        ({
            let claims = seq![last] + lookup.skip(1);
            forall|i: int|
                0 <= i < claims.len() ==> true_of(#[trigger] claims[i], fints(relu_out(x).data))
        }),
        r.witness_claims@.len() == 2,
        forall|i: int|
            0 <= i < 2 ==> true_of(
                #[trigger] cviews(r.witness_claims@)[i],
                fviews2(columns.columns@)[i],
            ),
        true_of(r.next_claim@, fints(x.data)),
{
    let y = relu_out(x).data;
    assert(y.len() == x.data.len());
    assert(x.data.take(x.data.len() as int) =~= x.data);
    assert(y.take(x.data.len() as int) =~= y);
    assert(fviews2(columns.columns@)[0] == fints(x.data));
    assert(fviews2(columns.columns@)[1] == fints(y));
    assert(true_of(lookup[0], fviews2(columns.columns@)[0]));
    assert(true_of(lookup[1], fviews2(columns.columns@)[1]));
    let claims = seq![last] + lookup.skip(1);
    assert forall|i: int| 0 <= i < claims.len() implies true_of(#[trigger] claims[i], fints(y)) by {
        if i > 0 {
            assert(claims[i] == lookup[1]);
        }
    }
    let w = cviews(r.witness_claims@);
    assert(w.len() == r.witness_claims@.len());
    assert(w[0] == lookup[0] && w[1] == accumulated);
}

} // verus!
