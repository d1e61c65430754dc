//! The checks between the sum-checks of a convolution accept the claims of an honest prover.
use crate::arith::{flog2, lemma_flog2_pow2};
use crate::claim::ClaimView;
use crate::commit::{beta, eq1, identity};
use crate::fft::omega;
use crate::field::{
    Fe, all_fe, fint, finv, fmul, fone, fviews, fviews2, fzero, lemma_fprod_eq, lemma_fprod_fe,
    lemma_fsum_eq, lemma_fviews_fe,
};
use crate::layers::conv_honest::law_weights_check;
use crate::layers::conv_steps::{
    ConvProof, complemented, flattened, lemma_log_product, proof_points, prover_claims,
    transform_point,
};
use crate::layers::conv_verify::{conv_ctx_is, conv_fault, outcome_complete, verifier_claims};
use crate::layers::convolution::{ConvCtx, Convolution};
use crate::layers::delegation_laws::{
    delegated, half_filled, honest_chain, law_fft_chain, law_ifft_chain,
};
use crate::layers::fft_conv::{fft_filter, laid_out, lemma_size, log_size};
use crate::layers::provable::{NodeId, betas};
use crate::mle::{law_betas_mle, lemma_mle_constant, lemma_mle_parts, mle};
use crate::ops::lemma_flat;
use crate::quantization::Element;
use crate::tensor::TensorView;
use vstd::arithmetic::div_mod::*;
use vstd::arithmetic::mul::*;
use vstd::arithmetic::power2::*;
use vstd::prelude::*;

verus! {

/// The claims of the proof are the values, at the points where its sum-checks end, of what an
/// honest prover puts into them: the rows of the Fourier matrices and the vectors of the chains for
/// them, the equality polynomial of the products, once for each channel, and the laid out filters.
pub open spec fn honest_claims<S>(
    f: TensorView<Element>,
    last_point: Seq<Fe>,
    proof: ConvProof<S>,
) -> bool {
    let n = f.shape[2] as int;
    let l = log_size(f) as int;
    let scale = finv(fint(pow2(l as nat) as int));
    let hp = fviews(proof.hadamard_proof.point@);
    let ip = fviews(proof.ifft_proof.point@);
    let fp = fviews(proof.fft_proof.point@);
    let wp = fviews(proof.fft_proof_weights.point@);
    let out = complemented(last_point).take(l - 1).push(fzero());
    let row = delegated(fone(), hp.take(l), omega(l as nat), 0);
    let partial = fviews(proof.partial_evals@);
    &&& last_point.len() >= l - 1
    &&& hp.len() >= l
    &&& pow2((hp.len() - l) as nat) == f.shape[1]
    &&& honest_chain(
        scale,
        out,
        true,
        ip,
        proof_points(proof.ifft_delegation_proof@),
        fviews2(proof.ifft_delegation_claims@),
    )
    &&& honest_chain(
        fone(),
        hp.take(l),
        false,
        fp,
        proof_points(proof.fft_delegation_proof@),
        fviews2(proof.fft_delegation_claims@),
    )
    &&& honest_chain(
        fone(),
        hp.take(l),
        false,
        wp,
        proof_points(proof.fft_delegation_proof_weights@),
        fviews2(proof.fft_delegation_weights_claims@),
    )
    &&& proof.ifft_claims@.len() == 2
    &&& proof.ifft_claims@[1]@ == mle(delegated(scale, out, finv(omega(l as nat)), 0), ip)
    &&& proof.hadamard_clams@.len() == 3
    &&& proof.hadamard_clams@[2]@ == mle(
        flattened(Seq::new(f.shape[1] as nat, |j: int| betas(ip)), 2 * (n * n)),
        hp,
    )
    &&& proof.fft_claims@.len() == 2
    &&& proof.fft_claims@[1]@ == mle(half_filled(row), fp)
    &&& proof.fft_weight_claims@.len() == 2
    &&& proof.fft_weight_claims@[0]@ == mle(
        laid_out(partial, f.og_shape[2] as int, n, (2 * (n * n)) as nat),
        wp,
    )
    &&& proof.fft_weight_claims@[1]@ == mle(half_filled(row), wp)
    &&& partial.len() == f.og_shape[2] * f.og_shape[2]
}

/// The extension of the equality polynomial of `r`, repeated, is that of `r` and the first
/// coordinates of the point.
proof fn lemma_repeated_betas(r: Seq<Fe>, count: nat, p: Seq<Fe>)
    requires
        r.len() <= p.len(),
        pow2((p.len() - r.len()) as nat) == count,
        all_fe(r),
        all_fe(p),
    ensures
        mle(flattened(Seq::new(count, |j: int| betas(r)), pow2(r.len()) as int), p) == identity(
            r,
            p,
        ),
{
    let len = pow2(r.len());
    let lo = p.take(r.len() as int);
    let hi = p.skip(r.len() as int);
    assert(lo + hi =~= p);
    let rows = Seq::new(count, |j: int| betas(r));
    let flat = flattened(rows, len as int);
    let parts = |i: int| rows[i];
    lemma_pow2_pos(r.len());
    assert forall|i: int, k: int|
        0 <= i < pow2(hi.len()) && 0 <= k < pow2(lo.len()) implies #[trigger] parts(i)[k] == flat[i
        * pow2(lo.len()) + k] by {
        lemma_flat(i, k, count as int, len as int);
        lemma_fundamental_div_mod_converse(i * len + k, len as int, i, k);
    }
    lemma_mle_parts(flat, parts, lo, hi);
    law_betas_mle(r, lo, betas(r));
    let c = identity(r, lo);
    assert(c == identity(r, p)) by {
        lemma_fprod_eq(r.len(), |i: int| eq1(r[i], lo[i]), |i: int| eq1(r[i], p[i]));
    }
    lemma_fprod_fe(r.len(), |i: int| eq1(r[i], lo[i]));
    // c times the sum of the equality polynomial
    let g = |i: int| fmul(mle(parts(i), lo), beta(hi, i as nat));
    let v = Seq::new(count, |i: int| c);
    let h = |i: int| fmul(v[i], beta(hi, i as nat));
    assert forall|i: int| 0 <= i < count implies #[trigger] g(i) == h(i) by {
        assert(parts(i) == betas(r));
    }
    lemma_fsum_eq(count, g, h);
    lemma_mle_constant(c, v, hi);
}

/// The checks accept the claims of an honest prover, unless the last coordinate of the random point
/// for the filters is one, by which nothing can be divided.
pub proof fn law_claims_accepted<S>(
    c: Convolution<Element>,
    id: NodeId,
    ctx: ConvCtx,
    last_point: Seq<Fe>,
    proof: ConvProof<S>,
)
    requires
        fft_filter(c.filter@),
        conv_ctx_is(c, id, ctx),
        honest_claims(c.filter@, last_point, proof),
        fviews(proof.fft_proof_weights.point@).last() != fone(),
    ensures
        conv_fault(ctx, last_point, proof) is None,
{
    let f = c.filter@;
    let n = f.shape[2] as int;
    let l = log_size(f) as int;
    let hp = fviews(proof.hadamard_proof.point@);
    let ip = fviews(proof.ifft_proof.point@);
    let fp = fviews(proof.fft_proof.point@);
    let wp = fviews(proof.fft_proof_weights.point@);
    let partial = fviews(proof.partial_evals@);
    lemma_size(f);
    lemma_fviews_fe(proof.hadamard_proof.point@);
    lemma_fviews_fe(proof.fft_proof_weights.point@);
    lemma_pow2_adds(flog2(n as nat), flog2(n as nat));
    lemma_flog2_pow2(2 * flog2(n as nat));
    law_ifft_chain(
        ip,
        proof_points(proof.ifft_delegation_proof@),
        fviews2(proof.ifft_delegation_claims@),
        complemented(last_point),
    );
    lemma_repeated_betas(ip, f.shape[1] as nat, hp);
    law_fft_chain(
        fp,
        proof_points(proof.fft_delegation_proof@),
        fviews2(proof.fft_delegation_claims@),
        hp,
    );
    law_fft_chain(
        wp,
        proof_points(proof.fft_delegation_proof_weights@),
        fviews2(proof.fft_delegation_weights_claims@),
        hp,
    );
    let lo = wp.take(l - 1);
    assert(wp =~= lo + seq![wp.last()]);
    law_weights_check(f, partial, lo, wp.last());
}

/// Prover and verifier of a convolution end with the same claims: about the filters, about the bias
/// and about the input. The prover starts from the claim at `last_point`, and the proof holds what
/// it sent.
pub proof fn law_same_claims<S>(
    c: Convolution<Element>,
    id: NodeId,
    ctx: ConvCtx,
    last_point: Seq<Fe>,
    proof: ConvProof<S>,
    weights_rand: Seq<Fe>,
)
    requires
        fft_filter(c.filter@),
        c.filter@.shape[0] > 0,
        conv_ctx_is(c, id, ctx),
        last_point.len() == flog2(
            (c.filter@.shape[0] * (c.filter@.shape[2] * c.filter@.shape[2])) as nat,
        ),
        proof.ifft_delegation_proof@.len() == ctx.delegation_ifft@.len(),
    ensures
        ({
            let f = c.filter@;
            let log_fs = flog2((f.shape[2] * f.shape[2]) as nat) as int;
            let log_kw = flog2(f.shape[0] as nat) as int;
            let l = log_size(f) as int;
            prover_claims(
                l,
                ClaimView {
                    point: last_point.subrange(log_fs, log_fs + log_kw),
                    eval: proof.bias_claim@,
                },
                fviews(proof.hadamard_proof.point@),
                transform_point(last_point, log_fs, log_kw).skip(l),
                fviews(proof.partial_evals@),
                weights_rand,
                ClaimView {
                    point: fviews(proof.fft_proof.point@),
                    eval: proof.fft_claims@[0]@,
                },
            ) == verifier_claims(ctx, last_point, proof, weights_rand)
        }),
{
    let f = c.filter@;
    let n = f.shape[2] as int;
    let log_fs = flog2((n * n) as nat) as int;
    let log_kw = flog2(f.shape[0] as nat) as int;
    let l = log_size(f) as int;
    lemma_size(f);
    lemma_pow2_adds(flog2(n as nat), flog2(n as nat));
    lemma_flog2_pow2(2 * flog2(n as nat));
    lemma_log_product(f, f.shape[0] as nat);
    assert(l == log_fs + 1);
    assert(ctx.filter_size * 2 == 2 * (n * n));
    assert(transform_point(last_point, log_fs, log_kw).skip(l) =~= last_point.skip(log_fs));
    assert(last_point.subrange(log_fs, log_fs + log_kw) =~= last_point.skip(log_fs));
}

/// The verifier of a convolution accepts the claims of an honest prover and ends with the claims
/// that the prover ends with, unless the last coordinate of one of the two random points by which
/// is divided is one.
pub proof fn law_convolution_verified<S>(
    c: Convolution<Element>,
    id: NodeId,
    ctx: ConvCtx,
    last_point: Seq<Fe>,
    proof: ConvProof<S>,
    weights_rand: Seq<Fe>,
)
    requires
        fft_filter(c.filter@),
        c.filter@.shape[0] > 0,
        conv_ctx_is(c, id, ctx),
        last_point.len() == flog2(
            (c.filter@.shape[0] * (c.filter@.shape[2] * c.filter@.shape[2])) as nat,
        ),
        honest_claims(c.filter@, last_point, proof),
        pow2(weights_rand.len()) == proof.partial_evals@.len(),
        fviews(proof.fft_proof_weights.point@).last() != fone(),
        fviews(proof.fft_proof.point@).last() != fone(),
    ensures
        conv_fault(ctx, last_point, proof) is None,
        outcome_complete(ctx, last_point, proof, weights_rand.len()),
        ({
            let f = c.filter@;
            let log_fs = flog2((f.shape[2] * f.shape[2]) as nat) as int;
            let log_kw = flog2(f.shape[0] as nat) as int;
            let l = log_size(f) as int;
            verifier_claims(ctx, last_point, proof, weights_rand) == prover_claims(
                l,
                ClaimView {
                    point: last_point.subrange(log_fs, log_fs + log_kw),
                    eval: proof.bias_claim@,
                },
                fviews(proof.hadamard_proof.point@),
                transform_point(last_point, log_fs, log_kw).skip(l),
                fviews(proof.partial_evals@),
                weights_rand,
                ClaimView {
                    point: fviews(proof.fft_proof.point@),
                    eval: proof.fft_claims@[0]@,
                },
            )
        }),
{
    let f = c.filter@;
    let n = f.shape[2] as int;
    let points = proof_points(proof.ifft_delegation_proof@);
    lemma_size(f);
    lemma_pow2_adds(flog2(n as nat), flog2(n as nat));
    lemma_flog2_pow2(2 * flog2(n as nat));
    lemma_log_product(f, f.shape[0] as nat);
    law_claims_accepted(c, id, ctx, last_point, proof);
    // the chain has one step less than a transform has variables
    assert(points.len() == proof.ifft_delegation_proof@.len());
    assert(points.len() == log_size(f) - 1);
    assert(ctx.delegation_ifft@.len() == log_size(f) - 1);
    assert(ctx.filter_size * 2 == 2 * (n * n));
    assert(fviews(proof.fft_proof.point@).len() == log_size(f));
    law_same_claims(c, id, ctx, last_point, proof, weights_rand);
}

} // verus!
