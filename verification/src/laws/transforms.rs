//! What the verifier of a convolution checks.
use crate::arith::{flog2, lemma_flog2_pow2, lemma_pow2_step};
use crate::commit::{fbits, identity};
use crate::fft::omega;
use crate::field::{
    Fe, GoldilocksExt2, fadd, fint, finv, fmul, fone, fpow, fsub, fsum, fviews, fviews2, is_fe,
    lemma_fe_closed, lemma_fviews_fe,
};
use crate::laws::algebra::law_division;
use crate::layers::conv_steps::{ConvProof, complemented, conv_sumchecks, proof_points};
use crate::layers::conv_verify::{
    conv_ctx_is, conv_fault, conv_statements, outcome_complete, statements_complete,
    verifier_claims,
};
use crate::layers::convolution::{ConvCtx, Convolution};
use crate::layers::delegation::{chain_complete, chain_step_ok, phi, root_powers};
use crate::layers::provable::{NodeId, SumcheckProof};
use crate::mle::mle;
use crate::prime::{law_invertible, lemma_one_minus_invertible};
use crate::quantization::Element;
use vstd::arithmetic::power2::*;
use vstd::prelude::*;

verus! {

/// Each step of a chain ends in the values, at its point, of the equality polynomial with the
/// point of the step before and of the polynomial of the step, for the powers `e` of the root.
pub open spec fn steps_right<S>(
    start: Seq<Fe>,
    proofs: Seq<SumcheckProof<S>>,
    claims: Seq<Vec<GoldilocksExt2>>,
    rands: Seq<Fe>,
    e: Seq<Fe>,
    inverse: bool,
) -> bool {
    forall|i: int|
        0 <= i < proofs.len() ==> {
            let here = fviews((#[trigger] proofs[i]).point@);
            let prev = if i == 0 {
                start
            } else {
                fviews(proofs[i - 1].point@)
            };
            &&& claims[i]@[0]@ == identity(here, prev)
            &&& claims[i]@[1]@ == phi(here, rands[i], prev.last(), e, !inverse && i == 0)
        }
}

/// The powers of the root of unity of a transform of `2^(n+1)` entries, or of its inverse, with
/// the exponents `1, 2, 4, ...`.
pub open spec fn doubled_powers(n: nat, inverse: bool) -> Seq<Fe> {
    Seq::new(
        n,
        |i: int|
            fpow(
                if inverse {
                    finv(omega(n + 1))
                } else {
                    omega(n + 1)
                },
                pow2(i as nat),
            ),
    )
}

proof fn lemma_chain_right<S>(
    start: Seq<Fe>,
    proofs: Seq<SumcheckProof<S>>,
    claims: Seq<Vec<GoldilocksExt2>>,
    rands: Seq<Fe>,
    inverse: bool,
)
    requires
        chain_complete(start, proof_points(proofs), fviews2(claims), rands),
        forall|i: int|
            0 <= i < proofs.len() ==> #[trigger] chain_step_ok(
                start,
                proof_points(proofs),
                fviews2(claims),
                rands,
                root_powers(proofs.len() + 1, inverse),
                inverse,
                i,
            ),
    ensures
        steps_right(start, proofs, claims, rands, doubled_powers(proofs.len(), inverse), inverse),
        forall|i: int| 0 <= i < proofs.len() ==> (#[trigger] claims[i])@.len() >= 3,
        claims.len() >= proofs.len(),
{
    let points = proof_points(proofs);
    let cs = fviews2(claims);
    let n = proofs.len();
    assert(root_powers(n + 1, inverse) =~= doubled_powers(n, inverse));
    assert(points.len() == n);
    assert(cs.len() == claims.len());
    assert forall|i: int| 0 <= i < n implies (#[trigger] claims[i])@.len() >= 3 by {
        assert(cs[i].len() >= 3);
    }
    assert forall|i: int| 0 <= i < n implies {
        let here = fviews((#[trigger] proofs[i]).point@);
        let prev = if i == 0 {
            start
        } else {
            fviews(proofs[i - 1].point@)
        };
        &&& claims[i]@[0]@ == identity(here, prev)
        &&& claims[i]@[1]@ == phi(
            here,
            rands[i],
            prev.last(),
            doubled_powers(n, inverse),
            !inverse && i == 0,
        )
    } by {
        assert(chain_step_ok(start, points, cs, rands, root_powers(n + 1, inverse), inverse, i));
        assert(claims[i]@.len() >= 3);
        assert(cs[i][0] == claims[i]@[0]@);
        assert(cs[i][1] == claims[i]@[1]@);
    }
}

/// The claim that is left of a chain after its last step.
pub open spec fn remaining_claim(start: Fe, claims: Seq<Vec<GoldilocksExt2>>, n: int) -> Fe {
    if n == 0 {
        start
    } else {
        claims[n - 1]@[2]@
    }
}

/// Where the verifier of a convolution finds no fault, every step of the chains for the inverse
/// transform, the transforms of the input and those of the filters is right, and what they are
/// left with is the value of the matrix of two entries.
pub proof fn law_chains_checked<S>(ctx: ConvCtx, last_point: Seq<Fe>, proof: ConvProof<S>)
    requires
        conv_fault(ctx, last_point, proof) is None,
    ensures
        ({
            let hp = fviews(proof.hadamard_proof.point@);
            let a = proof.ifft_delegation_proof@;
            let b = proof.fft_delegation_proof@;
            let c = proof.fft_delegation_proof_weights@;
            let scale = finv(fint(pow2(a.len() + 1) as int));
            let x = fviews(a.last().point@)[0];
            let y = fviews(b.last().point@)[0];
            let z = fviews(c.last().point@)[0];
            &&& 1 <= a.len() == ctx.delegation_ifft@.len()
            &&& 1 <= b.len() == ctx.delegation_fft@.len()
            &&& 1 <= c.len()
            &&& steps_right(
                fviews(proof.ifft_proof.point@),
                a,
                proof.ifft_delegation_claims@,
                complemented(last_point),
                doubled_powers(a.len(), true),
                true,
            )
            &&& steps_right(
                fviews(proof.fft_proof.point@),
                b,
                proof.fft_delegation_claims@,
                hp,
                doubled_powers(b.len(), false),
                false,
            )
            &&& steps_right(
                fviews(proof.fft_proof_weights.point@),
                c,
                proof.fft_delegation_weights_claims@,
                hp,
                doubled_powers(c.len(), false),
                false,
            )
            &&& remaining_claim(
                proof.ifft_claims@[1]@,
                proof.ifft_delegation_claims@,
                a.len() as int,
            ) == fadd(fmul(fmul(scale, fone()), x), fmul(scale, fsub(fone(), x)))
            &&& remaining_claim(proof.fft_claims@[1]@, proof.fft_delegation_claims@, b.len() as int)
                == fsub(
                fadd(fmul(fsub(fone(), fmul(fint(2), hp[b.len() as int])), y), fone()),
                y,
            )
            &&& remaining_claim(
                proof.fft_weight_claims@[1]@,
                proof.fft_delegation_weights_claims@,
                c.len() as int,
            ) == fsub(
                fadd(fmul(fsub(fone(), fmul(fint(2), hp[c.len() as int])), z), fone()),
                z,
            )
        }),
{
    let hp = fviews(proof.hadamard_proof.point@);
    let a = proof.ifft_delegation_proof@;
    let b = proof.fft_delegation_proof@;
    let c = proof.fft_delegation_proof_weights@;
    assert(proof_points(a).len() == a.len());
    assert(proof_points(b).len() == b.len());
    assert(proof_points(c).len() == c.len());
    lemma_chain_right(
        fviews(proof.ifft_proof.point@),
        a,
        proof.ifft_delegation_claims@,
        complemented(last_point),
        true,
    );
    lemma_chain_right(
        fviews(proof.fft_proof.point@),
        b,
        proof.fft_delegation_claims@,
        hp,
        false,
    );
    lemma_chain_right(
        fviews(proof.fft_proof_weights.point@),
        c,
        proof.fft_delegation_weights_claims@,
        hp,
        false,
    );
    assert(proof.ifft_delegation_claims@[a.len() - 1]@.len() >= 3);
    assert(proof.fft_delegation_claims@[b.len() - 1]@.len() >= 3);
    assert(proof.fft_delegation_weights_claims@[c.len() - 1]@.len() >= 3);
}

/// Where the verifier of a convolution finds no fault, the claim about the equality polynomial of
/// the products is its value, and the claim about the filters, with the last coordinate divided
/// out, is the sum of the values of the filters, each times the equality polynomial of its place
/// among the entries of the images.
pub proof fn law_claims_checked<S>(ctx: ConvCtx, last_point: Seq<Fe>, proof: ConvProof<S>)
    requires
        conv_fault(ctx, last_point, proof) is None,
    ensures
        ({
            let wp = fviews(proof.fft_proof_weights.point@);
            let partial = fviews(proof.partial_evals@);
            let k = ctx.real_nw as int;
            let n = ctx.nw as int;
            &&& proof.ifft_claims@.len() >= 2
            &&& proof.fft_claims@.len() >= 2
            &&& proof.hadamard_clams@.len() >= 3
            &&& proof.hadamard_clams@[2]@ == identity(
                fviews(proof.ifft_proof.point@),
                fviews(proof.hadamard_proof.point@),
            )
            &&& proof.fft_weight_claims@.len() >= 2
            &&& wp.len() >= 1
            &&& wp.last() != fone()
            &&& partial.len() >= k * k
            &&& fmul(proof.fft_weight_claims@[0]@, finv(fsub(fone(), wp.last()))) == fsum(
                (k * k) as nat,
                |q: int|
                    fmul(
                        partial[q],
                        identity(
                            fbits(((q / k) * n + q % k) as nat, 2 * flog2(n as nat)),
                            wp.drop_last(),
                        ),
                    ),
            )
        }),
{
    let wp = fviews(proof.fft_proof_weights.point@);
    assert(wp.take(wp.len() - 1) =~= wp.drop_last());
}

/// The sum-checks of the verification of a convolution, in their order, each with the claim that
/// it starts from and its size: the output without the bias; the chain of the inverse transform;
/// the products; the transforms of the input, with their chain; those of the filters, with theirs.
pub proof fn law_statements<S>(ctx: ConvCtx, last_eval: Fe, proof: ConvProof<S>, i: int)
    requires
        statements_complete(ctx, proof),
        0 <= i,
    ensures
        ({
            let s = conv_statements(ctx, last_eval, proof);
            let t = conv_sumchecks(proof);
            let a = proof.ifft_delegation_proof@.len() as int;
            let b = proof.fft_delegation_proof@.len() as int;
            let c = proof.fft_delegation_proof_weights@.len() as int;
            &&& s.len() == a + b + c + 4
            &&& t.len() == s.len()
            &&& s[0] == (fsub(last_eval, proof.bias_claim@), ctx.ifft_aux)
            &&& t[0] == proof.ifft_proof
            &&& i < a ==> s[1 + i] == (
                remaining_claim(proof.ifft_claims@[1]@, proof.ifft_delegation_claims@, i),
                ctx.delegation_ifft@[i],
            ) && t[1 + i] == proof.ifft_delegation_proof@[i]
            &&& s[1 + a] == (proof.ifft_claims@[0]@, ctx.hadamard)
            &&& t[1 + a] == proof.hadamard_proof
            &&& s[2 + a] == (proof.hadamard_clams@[1]@, ctx.fft_aux)
            &&& t[2 + a] == proof.fft_proof
            &&& i < b ==> s[3 + a + i] == (
                remaining_claim(proof.fft_claims@[1]@, proof.fft_delegation_claims@, i),
                ctx.delegation_fft@[i],
            ) && t[3 + a + i] == proof.fft_delegation_proof@[i]
            &&& s[3 + a + b] == (proof.hadamard_clams@[0]@, ctx.fft_weights_aux)
            &&& t[3 + a + b] == proof.fft_proof_weights
            &&& i < c ==> s[4 + a + b + i] == (
                remaining_claim(proof.fft_weight_claims@[1]@, proof.fft_delegation_weights_claims@, i),
                ctx.delegation_fft@[i],
            ) && t[4 + a + b + i] == proof.fft_delegation_proof_weights@[i]
        }),
{
    let a = proof.ifft_delegation_proof@.len() as int;
    let b = proof.fft_delegation_proof@.len() as int;
    let c = proof.fft_delegation_proof_weights@.len() as int;
    if 0 < i < a {
        assert(proof.ifft_delegation_claims@[i - 1]@.len() >= 3);
        assert(fviews2(proof.ifft_delegation_claims@)[i - 1][2]
            == proof.ifft_delegation_claims@[i - 1]@[2]@);
    }
    if 0 < i < b {
        assert(proof.fft_delegation_claims@[i - 1]@.len() >= 3);
        assert(fviews2(proof.fft_delegation_claims@)[i - 1][2]
            == proof.fft_delegation_claims@[i - 1]@[2]@);
    }
    if 0 < i < c {
        assert(proof.fft_delegation_weights_claims@[i - 1]@.len() >= 3);
        assert(fviews2(proof.fft_delegation_weights_claims@)[i - 1][2]
            == proof.fft_delegation_weights_claims@[i - 1]@[2]@);
    }
}

/// The sizes that the set-up keeps of a convolution with `2^a` channels of images of `2^e` rows
/// and columns: those of the transforms, of twice as many entries as the images have, those of the
/// chains, one variable less from step to step, and those of the products.
pub proof fn law_set_up(c: Convolution<Element>, id: NodeId, ctx: ConvCtx, a: nat, e: nat, i: int)
    requires
        conv_ctx_is(c, id, ctx),
        c.filter@.shape.len() == 4,
        c.filter@.og_shape.len() == 4,
        c.filter@.shape[1] == pow2(a),
        c.filter@.shape[2] == pow2(e),
        2 * e + 1 <= usize::MAX,
        a + 2 * e + 1 <= usize::MAX,
        0 <= i < 2 * e,
    ensures
        ctx.node_id == id,
        ctx.fft_aux.max_degree == 2 && ctx.fft_aux.num_variables == 2 * e + 1,
        ctx.fft_weights_aux == ctx.fft_aux,
        ctx.ifft_aux == ctx.fft_aux,
        ctx.hadamard.max_degree == 3 && ctx.hadamard.num_variables == a + 2 * e + 1,
        ctx.delegation_fft@.len() == 2 * e,
        ctx.delegation_fft@[i].max_degree == 3 && ctx.delegation_fft@[i].num_variables == 2 * e - i,
        ctx.delegation_fft_weights@ == ctx.delegation_fft@,
        ctx.delegation_ifft@ == ctx.delegation_fft@,
        ctx.kw == c.filter@.shape[0],
        ctx.kx == c.filter@.shape[1],
        ctx.nw == c.filter@.shape[2],
        ctx.real_nw == c.filter@.og_shape[2],
        ctx.filter_size == c.filter@.shape[2] * c.filter@.shape[2],
        ctx.unpadded_filter_shape@ == c.unpadded_shape@,
        ctx.padded_filter_shape@ == c.filter@.og_shape,
{
    lemma_pow2_adds(e, e);
    lemma_pow2_adds(a, e + e);
    lemma_flog2_pow2(e + e);
    lemma_flog2_pow2(a + (e + e));
}

/// The claims that the verifier of a convolution ends with, for images of `2^e` rows and columns,
/// where `lp` is the point of the claim that it was handed. That about the filters is at the
/// random point followed by the coordinates of the channels and of the filters, that about the
/// bias at the coordinates of the filters, and that about the input at the point of the
/// transforms, each coordinate but the last taken from one and the last divided out, followed by
/// the coordinates of the channels.
pub proof fn law_verifier_claims<S>(
    ctx: ConvCtx,
    lp: Seq<Fe>,
    proof: ConvProof<S>,
    wr: Seq<Fe>,
    e: nat,
)
    requires
        ctx.nw == pow2(e),
        ctx.filter_size == ctx.nw * ctx.nw,
        outcome_complete(ctx, lp, proof, wr.len()),
        proof.ifft_delegation_proof@.len() == 2 * e,
    ensures
        ({
            let c = verifier_claims(ctx, lp, proof, wr);
            let hp = fviews(proof.hadamard_proof.point@);
            let fp = fviews(proof.fft_proof.point@);
            let split = (2 * e) as int;
            &&& c.filter.point == wr + hp.skip(split + 1) + lp.skip(split)
            &&& c.filter.eval == mle(fviews(proof.partial_evals@), wr)
            &&& c.bias.point == lp.skip(split)
            &&& c.bias.eval == proof.bias_claim@
            &&& c.next.point.len() == fp.len() - 1 + (hp.len() - split - 1)
            &&& c.next.point.skip(fp.len() - 1) == hp.skip(split + 1)
            &&& forall|i: int|
                0 <= i < fp.len() - 1 ==> #[trigger] c.next.point[i] == fsub(fone(), fp[i])
            &&& fmul(c.next.eval, fsub(fone(), fp.last())) == proof.fft_claims@[0]@
        }),
{
    let hp = fviews(proof.hadamard_proof.point@);
    let fp = fviews(proof.fft_proof.point@);
    let split = (2 * e) as int;
    lemma_pow2_adds(e, e);
    lemma_pow2_step(e + e);
    lemma_flog2_pow2(e + e);
    lemma_flog2_pow2(e + e + 1);
    assert(ctx.filter_size as nat == pow2(e + e));
    assert((2 * (ctx.nw * ctx.nw)) as nat == pow2(e + e + 1));
    let c = verifier_claims(ctx, lp, proof, wr);
    assert(c.filter.point =~= wr + hp.skip(split + 1) + lp.skip(split));
    assert(c.next.point.skip(fp.len() - 1) =~= hp.skip(split + 1));
    let last = fp.last();
    lemma_fviews_fe(proof.fft_proof.point@);
    assert(is_fe(fp[fp.len() - 1]));
    lemma_one_minus_invertible(last);
    lemma_fe_closed(fone(), last);
    law_invertible(fsub(fone(), last));
    law_division(proof.fft_claims@[0]@, fsub(fone(), last));
}

/// The verifier of a convolution can set up its sum-checks exactly where the claims that these
/// start from are there, and the chains are no longer than the set-up expects.
pub proof fn law_statements_complete<S>(ctx: ConvCtx, proof: ConvProof<S>)
    ensures
        statements_complete(ctx, proof) <==> ({
            let a = proof.ifft_delegation_proof@.len();
            let b = proof.fft_delegation_proof@.len();
            let c = proof.fft_delegation_proof_weights@.len();
            &&& proof.ifft_claims@.len() >= 2
            &&& proof.hadamard_clams@.len() >= 3
            &&& proof.fft_claims@.len() >= 2
            &&& proof.fft_weight_claims@.len() >= 2
            &&& a <= ctx.delegation_ifft@.len()
            &&& b <= ctx.delegation_fft@.len()
            &&& c <= ctx.delegation_fft@.len()
            &&& a <= proof.ifft_delegation_claims@.len()
            &&& b <= proof.fft_delegation_claims@.len()
            &&& c <= proof.fft_delegation_weights_claims@.len()
            &&& forall|i: int|
                0 <= i < a ==> (#[trigger] proof.ifft_delegation_claims@[i])@.len() >= 3
            &&& forall|i: int|
                0 <= i < b ==> (#[trigger] proof.fft_delegation_claims@[i])@.len() >= 3
            &&& forall|i: int|
                0 <= i < c ==> (#[trigger] proof.fft_delegation_weights_claims@[i])@.len() >= 3
        }),
{
}

/// The verifier of a convolution of images of `2^e` rows and columns can make its last claims
/// exactly where the points are long enough, the values of the filters go with the random point,
/// and the last coordinate of the transforms is not one.
pub proof fn law_outcome_complete<S>(
    ctx: ConvCtx,
    lp: Seq<Fe>,
    proof: ConvProof<S>,
    rand_len: nat,
    e: nat,
)
    requires
        ctx.nw == pow2(e),
        ctx.filter_size == ctx.nw * ctx.nw,
    ensures
        outcome_complete(ctx, lp, proof, rand_len) <==> ({
            let hp = proof.hadamard_proof.point@.len();
            let fp = fviews(proof.fft_proof.point@);
            &&& lp.len() >= 2 * e
            &&& lp.len() >= proof.ifft_delegation_proof@.len()
            &&& hp >= 2 * e + 1
            &&& proof.fft_claims@.len() >= 1
            &&& proof.partial_evals@.len() == pow2(rand_len)
            &&& fp.len() >= 1
            &&& fp.last() != fone()
        }),
{
    lemma_pow2_adds(e, e);
    lemma_pow2_step(e + e);
    lemma_flog2_pow2(e + e);
    lemma_flog2_pow2(e + e + 1);
    assert(ctx.filter_size as nat == pow2(e + e));
    assert((2 * (ctx.nw * ctx.nw)) as nat == pow2(e + e + 1));
}

} // verus!
