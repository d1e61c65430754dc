//! Setting up and verifying a convolution.
use crate::arith::{
    flog2, has_next_power_of_two, ilog2, lemma_div_lt, lemma_flog2_usize, lemma_pow2_mono,
    lemma_pow2_step, lemma_pow2_zero, npow2,
};
use crate::claim::{Claim, ClaimView};
use crate::commit::{fbits, identity, identity_eval, to_bits};
use crate::field::{
    Fe, GoldilocksExt2, finv, fmul, fone, fsub, fsum, fviews, fviews2, lemma_fviews_fe,
};
use crate::iop::context::{ContextAux, ShapeStep};
use crate::layers::conv_steps::{
    ConvOutcome, ConvProof, OutcomeView, SumcheckStatement, complement, complemented,
    concat_points, conv_sumchecks, input_claim, laid_out_eval, left_claim, points_of,
    proof_points, sub_point,
};
use crate::layers::convolution::{
    ConvCtx, Convolution, clearing, conv2d_shape, conv_mode_ok, conv_shape, conv_shape_in,
    conv_shape_ok, conv_shapes, new_clearing_tensor, padded_conv2d_shape,
};
use crate::layers::delegation::{
    chain_claim, check_fft_chain, check_ifft_chain, fft_chain_ok, ifft_chain_ok,
};
use crate::layers::provable::{NodeId, PaddingMode, VPAuxInfo};
use crate::layers::provable::error::{ProvableOpError, generic_err, generic_error};
use crate::mle::{mle, mle_evaluate};
use crate::prime::lemma_one_minus_invertible;
use crate::quantization::{Element, fints};
use crate::shape::{checked_product, pow2_shape, pow2_shape_fits, product, shapes};
use crate::tensor::{Tensor, TensorView, padded};
use vstd::arithmetic::div_mod::*;
use vstd::arithmetic::mul::*;
use vstd::arithmetic::power2::*;
use vstd::prelude::*;
use vstd::slice::slice_to_vec;

verus! {

// ---------------------------------------------------------------------------------------
// Set-up
// ---------------------------------------------------------------------------------------

/// A product of `factors` polynomials in `vars` variables.
pub open spec fn product_aux(factors: usize, vars: int) -> VPAuxInfo {
    VPAuxInfo { max_degree: factors, num_variables: vars as usize }
}

/// The sizes of a chain of sum-checks for a matrix of `2^n` rows: from `n` variables down to one.
pub open spec fn chain_aux(n: nat) -> Seq<VPAuxInfo> {
    Seq::new(n, |i: int| product_aux(3, n - i))
}

fn chain_aux_of(n: usize) -> (r: Vec<VPAuxInfo>)
    ensures
        r@ == chain_aux(n as nat),
{
    let mut r: Vec<VPAuxInfo> = Vec::new();
    let mut i: usize = 0;
    while i < n
        invariant
            i <= n,
            r@ == chain_aux(n as nat).take(i as int),
        decreases n - i,
    {
        r.push(VPAuxInfo { max_degree: 3, num_variables: n - i });
        assert(r@ =~= chain_aux(n as nat).take(i + 1));
        i = i + 1;
    }
    assert(chain_aux(n as nat).take(n as int) =~= chain_aux(n as nat));
    r
}

/// What the set-up keeps of a convolution.
pub open spec fn conv_ctx_is(c: Convolution<Element>, id: NodeId, ctx: ConvCtx) -> bool {
    let f = c.filter@;
    let fs = f.shape[2] * f.shape[2];
    let l = flog2(fs as nat) as int;
    let h = flog2((f.shape[1] * fs) as nat) as int;
    &&& ctx.node_id == id
    &&& ctx.fft_aux == product_aux(2, l + 1)
    &&& ctx.fft_weights_aux == product_aux(2, l + 1)
    &&& ctx.ifft_aux == product_aux(2, l + 1)
    &&& ctx.delegation_fft@ == chain_aux(l as nat)
    &&& ctx.delegation_fft_weights@ == chain_aux(l as nat)
    &&& ctx.delegation_ifft@ == chain_aux(l as nat)
    &&& ctx.hadamard == product_aux(3, h + 1)
    &&& ctx.kw == f.shape[0]
    &&& ctx.kx == f.shape[1]
    &&& ctx.nw == f.shape[2]
    &&& ctx.real_nw == f.og_shape[2]
    &&& ctx.filter_size == fs
    &&& ctx.unpadded_filter_shape@ == c.unpadded_shape@
    &&& ctx.padded_filter_shape@ == f.og_shape
}

/// The entries of a tensor, padded to powers of two in each dimension.
pub open spec fn poly_entries(t: TensorView<Element>) -> Seq<Element> {
    padded(t.data, t.og_shape, pow2_shape(t.og_shape), 0)
}

/// The entries of the tensor can be padded.
pub open spec fn poly_fits(t: TensorView<Element>) -> bool {
    &&& t.data.len() == product(t.og_shape)
    &&& pow2_shape_fits(t.og_shape)
    &&& product(pow2_shape(t.og_shape)) <= usize::MAX
}

/// The layer can be set up.
pub open spec fn conv_step_ok(c: Convolution<Element>) -> bool {
    let f = c.filter@;
    &&& f.shape.len() == 4
    &&& f.og_shape.len() == 4
    &&& 0 < f.shape[2] * f.shape[2] <= usize::MAX
    &&& 0 < f.shape[1] * (f.shape[2] * f.shape[2]) <= usize::MAX
    &&& poly_fits(f)
    &&& poly_fits(c.bias@)
}

/// What the set-up of a convolution gives.
pub open spec fn conv_step_is(
    c: Convolution<Element>,
    id: NodeId,
    aux: ContextAux,
    ctx: ConvCtx,
    out: ContextAux,
) -> bool {
    &&& conv_ctx_is(c, id, ctx)
    &&& out.tables == aux.tables
    &&& shapes(out.last_output_shape@) == Seq::new(
        aux.last_output_shape@.len(),
        |i: int| c.set_up_shape(),
    )
    &&& out.model_polys@.len() == 2
    &&& out.model_polys@[0]@ == poly_entries(c.filter@)
    &&& out.model_polys@[1]@ == poly_entries(c.bias@)
}

/// The entries of a tensor, padded to powers of two in each dimension.
pub fn poly_of(t: &Tensor<Element>) -> (r: Vec<Element>)
    requires
        poly_fits(t@),
    ensures
        r@ == poly_entries(t@),
{
    let plain = Tensor::new(t.real_shape(), slice_to_vec(t.data.as_slice()));
    plain.pad_next_power_of_two().data
}

impl Convolution<Element> {
    /// The shape of the output that the set-up hands on: that of the filters without the channels.
    pub open spec fn set_up_shape(self) -> Seq<usize> {
        self.filter@.shape.remove(1)
    }

    /// Sets up the layer.
    pub fn step_info(&self, id: NodeId, aux: ContextAux) -> (r: (ConvCtx, ContextAux))
        requires
            conv_step_ok(*self),
        ensures
            conv_step_is(*self, id, aux, r.0, r.1),
    {
        let s = self.filter.get_shape();
        let mut filter_shape: Vec<usize> = Vec::new();
        filter_shape.push(s[0]);
        filter_shape.push(s[2]);
        filter_shape.push(s[3]);
        assert(filter_shape@ =~= self.set_up_shape());
        let last_output_shape = repeat_shape(
            filter_shape.as_slice(),
            aux.last_output_shape.len(),
        );
        let fs = self.filter_size();
        let l = ilog2(fs);
        let h = ilog2(self.kx() * fs);
        proof {
            lemma_flog2_usize(fs as nat);
            lemma_flog2_usize((self.filter@.shape[1] * fs) as nat);
        }
        let two = VPAuxInfo { max_degree: 2, num_variables: l + 1 };
        let ctx = ConvCtx {
            node_id: id,
            fft_aux: two,
            fft_weights_aux: two,
            ifft_aux: two,
            delegation_fft: chain_aux_of(l),
            delegation_fft_weights: chain_aux_of(l),
            delegation_ifft: chain_aux_of(l),
            hadamard: VPAuxInfo { max_degree: 3, num_variables: h + 1 },
            kw: self.kw(),
            kx: self.kx(),
            real_nw: self.filter.real_nw(),
            nw: self.filter.nw(),
            filter_size: fs,
            unpadded_filter_shape: slice_to_vec(self.unpadded_shape.as_slice()),
            padded_filter_shape: self.filter.real_shape(),
        };
        let mut model_polys: Vec<Vec<Element>> = Vec::new();
        model_polys.push(poly_of(&self.filter));
        model_polys.push(poly_of(&self.bias));
        (ctx, ContextAux { tables: aux.tables, last_output_shape, model_polys })
    }
}

/// A shape, `n` times.
pub fn repeat_shape(s: &[usize], n: usize) -> (r: Vec<Vec<usize>>)
    ensures
        shapes(r@) == Seq::new(n as nat, |i: int| s@),
{
    let mut r: Vec<Vec<usize>> = Vec::new();
    let mut i: usize = 0;
    while i < n
        invariant
            i <= n,
            r.len() == i,
            forall|j: int| 0 <= j < i ==> (#[trigger] r[j])@ == s@,
        decreases n - i,
    {
        r.push(slice_to_vec(s));
        i = i + 1;
    }
    assert(shapes(r@) =~= Seq::new(n as nat, |i: int| s@));
    r
}

// ---------------------------------------------------------------------------------------
// Verification
// ---------------------------------------------------------------------------------------

impl ConvCtx {
    /// The sizes that the set-up wrote down are those of a convolution.
    pub open spec fn sound(self) -> bool {
        &&& 0 < self.nw <= 32768
        &&& self.real_nw <= self.nw
        &&& 0 < self.filter_size
        &&& self.filter_size * 2 <= usize::MAX
    }

    /// The shape that decides the shape of the output, in the given mode.
    pub open spec fn shape_for(self, mode: PaddingMode) -> Seq<usize> {
        match mode {
            PaddingMode::NoPadding => self.unpadded_filter_shape@,
            PaddingMode::Padding => self.padded_filter_shape@,
        }
    }

    /// The shape of the output.
    pub fn output_shape(&self, input_shape: &[usize], padding_mode: PaddingMode) -> (r: Vec<usize>)
        requires
            conv_mode_ok(input_shape@, self.shape_for(padding_mode), padding_mode),
        ensures
            r@ == conv_shape_in(input_shape@, self.shape_for(padding_mode), padding_mode),
    {
        match padding_mode {
            PaddingMode::NoPadding => conv2d_shape(
                input_shape,
                self.unpadded_filter_shape.as_slice(),
            ),
            PaddingMode::Padding => padded_conv2d_shape(
                input_shape,
                self.padded_filter_shape.as_slice(),
            ),
        }
    }

    /// The shapes of the outputs.
    pub fn output_shapes(&self, input_shapes: &[Vec<usize>], padding_mode: PaddingMode) -> (r: Vec<
        Vec<usize>,
    >)
        requires
            forall|i: int|
                0 <= i < input_shapes@.len() ==> conv_mode_ok(
                    #[trigger] shapes(input_shapes@)[i],
                    self.shape_for(padding_mode),
                    padding_mode,
                ),
        ensures
            shapes(r@) == Seq::new(
                input_shapes@.len(),
                |i: int|
                    conv_shape_in(
                        input_shapes@[i]@,
                        self.shape_for(padding_mode),
                        padding_mode,
                    ),
            ),
    {
        match padding_mode {
            PaddingMode::NoPadding => conv_shapes(
                input_shapes,
                self.unpadded_filter_shape.as_slice(),
                padding_mode,
            ),
            PaddingMode::Padding => conv_shapes(
                input_shapes,
                self.padded_filter_shape.as_slice(),
                padding_mode,
            ),
        }
    }

    /// What the verifier needs to check the clearing of the output: the number of entries, and the
    /// value of the clearing tensor at the point of the clearing proof. Fails where the step has
    /// not one input shape, where the shapes do not go together, or where the point has not as
    /// many coordinates as the tensor needs.
    pub fn clearing_evaluation(&self, step: &ShapeStep, point: &[GoldilocksExt2]) -> (r: Result<
        (usize, GoldilocksExt2),
        ProvableOpError,
    >)
        ensures
            ({
                let un = step.unpadded_input_shape@;
                let pa = step.padded_input_shape@;
                let fu = self.unpadded_filter_shape@;
                let fp = self.padded_filter_shape@;
                if un.len() != 1 {
                    generic_error(
                        r,
                        "More than 1 unpadded input shape found for convolution layer"@,
                    )
                } else if pa.len() != 1 {
                    generic_error(
                        r,
                        "More than 1 padded input shape found for convolution layer"@,
                    )
                } else if !(conv_shape_ok(un[0]@, fu) && conv_mode_ok(
                    pa[0]@,
                    fp,
                    PaddingMode::Padding,
                )) {
                    generic_error(r, "The shapes of input and filter do not go together"@)
                } else {
                    let shape = pow2_shape(conv_shape(pa[0]@, fp));
                    if product(shape) > usize::MAX || pow2(point@.len()) != product(shape) {
                        generic_error(r, "The point of the clearing proof has the wrong size"@)
                    } else {
                        &&& r is Ok
                        &&& (r->Ok_0).0 == product(shape)
                        &&& (r->Ok_0).1@ == mle(
                            fints(clearing(shape, conv_shape(un[0]@, fu))),
                            fviews(point@),
                        )
                    }
                }
            }),
    {
        if step.unpadded_input_shape.len() != 1 {
            return generic_err("More than 1 unpadded input shape found for convolution layer");
        }
        if step.padded_input_shape.len() != 1 {
            return generic_err("More than 1 padded input shape found for convolution layer");
        }
        let unpadded = step.unpadded_input_shape[0].as_slice();
        let padded = step.padded_input_shape[0].as_slice();
        if !shapes_go_together(unpadded, self.unpadded_filter_shape.as_slice())
            || !shapes_go_together(padded, self.padded_filter_shape.as_slice())
            || !pow2_fits(conv2d_shape(padded, self.padded_filter_shape.as_slice()).as_slice()) {
            return generic_err("The shapes of input and filter do not go together");
        }
        let unpadded_output_shape = conv2d_shape(unpadded, self.unpadded_filter_shape.as_slice());
        let real_output_shape = padded_conv2d_shape(padded, self.padded_filter_shape.as_slice());
        let n = match checked_product(real_output_shape.as_slice()) {
            Some(n) => n,
            None => {
                return generic_err("The point of the clearing proof has the wrong size");
            },
        };
        if !has_size(point, n) {
            return generic_err("The point of the clearing proof has the wrong size");
        }
        let tensor = new_clearing_tensor(
            unpadded_output_shape.as_slice(),
            real_output_shape.as_slice(),
        );
        let evals = tensor.evals_flat();
        assert(fviews(evals@).len() == evals@.len());
        Ok((n, mle_evaluate(evals.as_slice(), point)))
    }

    /// The sum-checks that the verifier runs, in order: for the inverse transform, for its matrix,
    /// for the products, for the transforms of the input, for their matrix, for the transforms of
    /// the filters, and for their matrix. Fails where the proof lacks a claim, or has more
    /// sum-checks for a matrix than the set-up provides.
    pub fn sumcheck_statements<S>(
        &self,
        last_claim: &Claim<GoldilocksExt2>,
        proof: &ConvProof<S>,
    ) -> (r: Result<Vec<SumcheckStatement>, ProvableOpError>)
        ensures
            !statements_complete(*self, *proof) ==> generic_error(
                r,
                "The proof of the convolution lacks a claim"@,
            ),
            statements_complete(*self, *proof) ==> {
                &&& r is Ok
                &&& statement_views(r->Ok_0@) == conv_statements(
                    *self,
                    last_claim@.eval,
                    *proof,
                )
                &&& r->Ok_0@.len() == conv_sumchecks(*proof).len()
            },
    {
        if proof.ifft_claims.len() < 2 || proof.hadamard_clams.len() < 3 || proof.fft_claims.len()
            < 2 || proof.fft_weight_claims.len() < 2 || proof.ifft_delegation_proof.len()
            > self.delegation_ifft.len() || proof.fft_delegation_proof.len()
            > self.delegation_fft.len() || proof.fft_delegation_proof_weights.len()
            > self.delegation_fft.len() || !claims_complete(
            &proof.ifft_delegation_claims,
            proof.ifft_delegation_proof.len(),
        ) || !claims_complete(&proof.fft_delegation_claims, proof.fft_delegation_proof.len())
            || !claims_complete(
            &proof.fft_delegation_weights_claims,
            proof.fft_delegation_proof_weights.len(),
        ) {
            return generic_err("The proof of the convolution lacks a claim");
        }
        let conv_claim = last_claim.eval.minus(proof.bias_claim);
        let mut r: Vec<SumcheckStatement> = Vec::new();
        r.push(SumcheckStatement { claim: conv_claim, aux: self.ifft_aux });
        let ghost a = seq![(fsub(last_claim@.eval, proof.bias_claim@), self.ifft_aux)];
        assert(statement_views(r@) =~= a);
        push_chain(
            &mut r,
            proof.ifft_claims[1],
            &proof.ifft_delegation_claims,
            proof.ifft_delegation_proof.len(),
            &self.delegation_ifft,
        );
        let s1 = SumcheckStatement { claim: proof.ifft_claims[0], aux: self.hadamard };
        let s2 = SumcheckStatement { claim: proof.hadamard_clams[1], aux: self.fft_aux };
        proof {
            lemma_statement_push(r@, s1);
            lemma_statement_push(r@.push(s1), s2);
        }
        r.push(s1);
        r.push(s2);
        push_chain(
            &mut r,
            proof.fft_claims[1],
            &proof.fft_delegation_claims,
            proof.fft_delegation_proof.len(),
            &self.delegation_fft,
        );
        let s3 = SumcheckStatement { claim: proof.hadamard_clams[0], aux: self.fft_weights_aux };
        proof {
            lemma_statement_push(r@, s3);
        }
        r.push(s3);
        push_chain(
            &mut r,
            proof.fft_weight_claims[1],
            &proof.fft_delegation_weights_claims,
            proof.fft_delegation_proof_weights.len(),
            &self.delegation_fft,
        );
        assert(statement_views(r@) =~= conv_statements(*self, last_claim@.eval, *proof));
        assert(statement_views(r@).len() == r@.len());
        Ok(r)
    }

    /// Checks what the proof claims between the sum-checks. Fails at the first claim that is
    /// wrong.
    pub fn check_claims<S>(&self, last_claim: &Claim<GoldilocksExt2>, proof: &ConvProof<S>) -> (r:
        Result<(), ProvableOpError>)
        requires
            self.sound(),
        ensures
            match conv_fault(*self, last_claim@.point, *proof) {
                Some(m) => generic_error(r, m),
                None => r is Ok,
            },
    {
        if self.delegation_ifft.len() != proof.ifft_delegation_proof.len() {
            return generic_err("Inconsistency in iFFT delegation proofs/aux size");
        }
        let rands = complement(last_claim.point.as_slice());
        if proof.ifft_claims.len() < 2 || !check_ifft_chain(
            proof.ifft_claims[1],
            proof.ifft_proof.point.as_slice(),
            points_of(proof.ifft_delegation_proof.as_slice()).as_slice(),
            proof.ifft_delegation_claims.as_slice(),
            rands.as_slice(),
        ) {
            return generic_err("Error in iFFT delegation");
        }
        if proof.hadamard_clams.len() < 3 || !proof.hadamard_clams[2].same(
            &identity_eval(
                proof.ifft_proof.point.as_slice(),
                proof.hadamard_proof.point.as_slice(),
            ),
        ) {
            return generic_err("Error in Beta evaluation");
        }
        if self.delegation_fft.len() != proof.fft_delegation_proof.len() {
            return generic_err("Inconsistency in FFT delegation proofs/aux size");
        }
        if proof.fft_claims.len() < 2 || !check_fft_chain(
            proof.fft_claims[1],
            proof.fft_proof.point.as_slice(),
            points_of(proof.fft_delegation_proof.as_slice()).as_slice(),
            proof.fft_delegation_claims.as_slice(),
            proof.hadamard_proof.point.as_slice(),
        ) {
            return generic_err("Error in FFT delegation");
        }
        if proof.fft_weight_claims.len() < 2 || !check_fft_chain(
            proof.fft_weight_claims[1],
            proof.fft_proof_weights.point.as_slice(),
            points_of(proof.fft_delegation_proof_weights.as_slice()).as_slice(),
            proof.fft_delegation_weights_claims.as_slice(),
            proof.hadamard_proof.point.as_slice(),
        ) {
            return generic_err("Error in FFT delegation of the weights");
        }
        if !self.check_weights(
            proof.fft_proof_weights.point.as_slice(),
            proof.fft_weight_claims[0],
            proof.partial_evals.as_slice(),
        ) {
            return generic_err("Error in padded_fft evaluation claim");
        }
        Ok(())
    }

    /// Whether the claim about the laid out filters goes with the values of the filters that the
    /// prover sent.
    fn check_weights(
        &self,
        point: &[GoldilocksExt2],
        claim: GoldilocksExt2,
        partial_evals: &[GoldilocksExt2],
    ) -> (r: bool)
        requires
            self.sound(),
        ensures
            r == weights_ok(*self, fviews(point@), claim@, fviews(partial_evals@)),
    {
        let real_nw = self.real_nw;
        let nw = self.nw;
        let ghost pe = fviews(partial_evals@);
        proof {
            assert(real_nw * real_nw <= 32768 * 32768) by {
                lemma_mul_upper_bound(real_nw as int, 32768, real_nw as int, 32768);
            }
        }
        let k2 = real_nw * real_nw;
        if point.len() == 0 || partial_evals.len() < k2 {
            return false;
        }
        let m = point.len() - 1;
        let weights_point = vstd::slice::slice_subrange(point, 0, m);
        let ghost wp = fviews(point@).take(m as int);
        assert(fviews(weights_point@) =~= wp);
        let last = GoldilocksExt2::one().minus(point[m]);
        proof {
            lemma_fviews_fe(point@);
            lemma_one_minus_invertible(fviews(point@)[m as int]);
        }
        let v = match last.invert() {
            Some(v) => v,
            None => {
                return false;
            },
        };
        let log_nw = ilog2(nw);
        proof {
            lemma_flog2_usize(nw as nat);
        }
        let bits = log_nw * 2;
        let mut y = GoldilocksExt2::zero();
        let mut q: usize = 0;
        let ghost f = |q: int|
            fmul(
                pe[q],
                identity(
                    fbits(
                        ((q / (real_nw as int)) * nw + q % (real_nw as int)) as nat,
                        2 * flog2(nw as nat),
                    ),
                    wp,
                ),
            );
        while q < k2
            invariant
                k2 == real_nw * real_nw,
                real_nw <= nw <= 32768,
                bits == 2 * flog2(nw as nat),
                k2 <= partial_evals@.len(),
                pe == fviews(partial_evals@),
                fviews(weights_point@) == wp,
                f == (|q: int|
                    fmul(
                        pe[q],
                        identity(
                            fbits(
                                ((q / (real_nw as int)) * nw + q % (real_nw as int)) as nat,
                                2 * flog2(nw as nat),
                            ),
                            wp,
                        ),
                    )),
                q <= k2,
                y@ == fsum(q as nat, f),
            decreases k2 - q,
        {
            proof {
                assert(real_nw > 0) by (nonlinear_arith)
                    requires
                        0 <= q < real_nw * real_nw,
                ;
                lemma_div_lt(q as nat, real_nw as nat, real_nw as nat);
                lemma_mod_bound(q as int, real_nw as int);
                lemma_mul_upper_bound(q as int / real_nw as int, 32768, nw as int, 32768);
                lemma_mul_nonnegative(q as int / real_nw as int, nw as int);
            }
            let place = (q / real_nw) * nw + q % real_nw;
            let b = to_bits(place, bits);
            y = y.plus(partial_evals[q].times(identity_eval(b.as_slice(), weights_point)));
            q = q + 1;
        }
        claim.times(v).same(&y)
    }

    /// The claims that are left at the end of the verification. Fails where a point of the proof
    /// has too few coordinates, where the number of values of the filters is not that which the
    /// random point needs, or where the last coordinate of the point of the transform is one.
    pub fn finish_verifying<S>(
        &self,
        last_claim: &Claim<GoldilocksExt2>,
        proof: &ConvProof<S>,
        weights_rand: &[GoldilocksExt2],
    ) -> (r: Result<ConvOutcome, ProvableOpError>)
        requires
            self.sound(),
        ensures
            if !outcome_complete(*self, last_claim@.point, *proof, weights_rand@.len()) {
                generic_error(r, "The points of the convolution proof have the wrong size"@)
            } else {
                r is Ok && r->Ok_0@ == verifier_claims(
                    *self,
                    last_claim@.point,
                    *proof,
                    fviews(weights_rand@),
                )
            },
    {
        proof {
            lemma_mul_upper_bound(self.nw as int, 32768, self.nw as int, 32768);
            lemma_mul_strictly_positive(self.nw as int, self.nw as int);
        }
        let l = ilog2(self.filter_size);
        let l2 = ilog2(2 * (self.nw * self.nw));
        let ls = ilog2(self.filter_size * 2);
        let d = proof.ifft_delegation_proof.len();
        let lp = last_claim.point.as_slice();
        let hp = proof.hadamard_proof.point.as_slice();
        if lp.len() < l || lp.len() < d || hp.len() < ls || proof.fft_claims.len() < 1 || !has_size(
            weights_rand,
            proof.partial_evals.len(),
        ) {
            return generic_err("The points of the convolution proof have the wrong size");
        }
        let next_claim = match left_claim(
            proof.fft_proof.point.as_slice(),
            hp,
            proof.fft_claims[0],
            ls,
        ) {
            Some(c) => c,
            None => {
                return generic_err("The points of the convolution proof have the wrong size");
            },
        };
        let high = sub_point(lp, l, lp.len());
        let point = concat_points(hp, high);
        assert(fviews(point@).len() == point@.len());
        proof {
            assert(fviews(lp@).subrange(l as int, lp@.len() as int) =~= fviews(lp@).skip(
                l as int,
            ));
            assert(fviews(lp@).subrange(d as int, lp@.len() as int) =~= fviews(lp@).skip(
                d as int,
            ));
        }
        if point.len() < l2 {
            return generic_err("The points of the convolution proof have the wrong size");
        }
        let tail = sub_point(point.as_slice(), l2, point.len());
        assert(fviews(point@).subrange(l2 as int, point@.len() as int) =~= fviews(point@).skip(
            l2 as int,
        ));
        let filter_claim = Claim::new(
            concat_points(weights_rand, tail),
            mle_evaluate(proof.partial_evals.as_slice(), weights_rand),
        );
        let bias_claim = Claim::new(
            slice_to_vec(sub_point(lp, d, lp.len())),
            proof.bias_claim,
        );
        Ok(ConvOutcome { filter_claim, bias_claim, next_claim })
    }
}

/// The claims that the verifier of a convolution ends with: `lp` is the point of the claim about
/// the output before clearing, `wr` the random point for the filters.
pub open spec fn verifier_claims<S>(
    ctx: ConvCtx,
    lp: Seq<Fe>,
    proof: ConvProof<S>,
    wr: Seq<Fe>,
) -> OutcomeView {
    let l = flog2(ctx.filter_size as nat) as int;
    let l2 = flog2((2 * (ctx.nw * ctx.nw)) as nat) as int;
    let ls = flog2((ctx.filter_size * 2) as nat) as int;
    let hp = fviews(proof.hadamard_proof.point@);
    OutcomeView {
        filter: ClaimView {
            point: wr + (hp + lp.skip(l)).skip(l2),
            eval: mle(fviews(proof.partial_evals@), wr),
        },
        bias: ClaimView {
            point: lp.skip(proof.ifft_delegation_proof@.len() as int),
            eval: proof.bias_claim@,
        },
        next: input_claim(fviews(proof.fft_proof.point@), hp, proof.fft_claims@[0]@, ls),
    }
}

/// The parts that the last claims of a convolution are made of are there.
pub open spec fn outcome_complete<S>(
    ctx: ConvCtx,
    last_point: Seq<Fe>,
    proof: ConvProof<S>,
    rand_len: nat,
) -> bool {
    let l = flog2(ctx.filter_size as nat);
    let l2 = flog2((2 * (ctx.nw * ctx.nw)) as nat);
    let ls = flog2((ctx.filter_size * 2) as nat);
    let fp = fviews(proof.fft_proof.point@);
    &&& last_point.len() >= l
    &&& last_point.len() >= proof.ifft_delegation_proof@.len()
    &&& proof.hadamard_proof.point@.len() >= ls
    &&& proof.hadamard_proof.point@.len() + (last_point.len() - l) >= l2
    &&& proof.fft_claims@.len() >= 1
    &&& pow2(rand_len) == proof.partial_evals@.len()
    &&& fp.len() > 0
    &&& fp.last() != fone()
}

/// The claim about the laid out filters goes with the values of the filters.
pub open spec fn weights_ok(ctx: ConvCtx, point: Seq<Fe>, claim: Fe, partial: Seq<Fe>) -> bool {
    let m = point.len() - 1;
    &&& point.len() > 0
    &&& partial.len() >= ctx.real_nw * ctx.real_nw
    &&& point[m] != fone()
    &&& fmul(claim, finv(fsub(fone(), point[m]))) == laid_out_eval(
        partial,
        ctx.real_nw as int,
        ctx.nw as int,
        point.take(m),
    )
}

/// What is wrong with the claims of a proof, if anything is.
pub open spec fn conv_fault<S>(
    ctx: ConvCtx,
    last_point: Seq<Fe>,
    proof: ConvProof<S>,
) -> Option<Seq<char>> {
    let hp = fviews(proof.hadamard_proof.point@);
    if ctx.delegation_ifft@.len() != proof.ifft_delegation_proof@.len() {
        Some("Inconsistency in iFFT delegation proofs/aux size"@)
    } else if proof.ifft_claims@.len() < 2 || !ifft_chain_ok(
        proof.ifft_claims@[1]@,
        fviews(proof.ifft_proof.point@),
        proof_points(proof.ifft_delegation_proof@),
        fviews2(proof.ifft_delegation_claims@),
        complemented(last_point),
    ) {
        Some("Error in iFFT delegation"@)
    } else if proof.hadamard_clams@.len() < 3 || proof.hadamard_clams@[2]@ != identity(
        fviews(proof.ifft_proof.point@),
        hp,
    ) {
        Some("Error in Beta evaluation"@)
    } else if ctx.delegation_fft@.len() != proof.fft_delegation_proof@.len() {
        Some("Inconsistency in FFT delegation proofs/aux size"@)
    } else if proof.fft_claims@.len() < 2 || !fft_chain_ok(
        proof.fft_claims@[1]@,
        fviews(proof.fft_proof.point@),
        proof_points(proof.fft_delegation_proof@),
        fviews2(proof.fft_delegation_claims@),
        hp,
    ) {
        Some("Error in FFT delegation"@)
    } else if proof.fft_weight_claims@.len() < 2 || !fft_chain_ok(
        proof.fft_weight_claims@[1]@,
        fviews(proof.fft_proof_weights.point@),
        proof_points(proof.fft_delegation_proof_weights@),
        fviews2(proof.fft_delegation_weights_claims@),
        hp,
    ) {
        Some("Error in FFT delegation of the weights"@)
    } else if !weights_ok(
        ctx,
        fviews(proof.fft_proof_weights.point@),
        proof.fft_weight_claims@[0]@,
        fviews(proof.partial_evals@),
    ) {
        Some("Error in padded_fft evaluation claim"@)
    } else {
        None
    }
}

/// There are claims for each of `n` steps of a chain.
pub open spec fn chain_claims_complete(claims: Seq<Vec<GoldilocksExt2>>, n: nat) -> bool {
    &&& claims.len() >= n
    &&& forall|i: int| 0 <= i < n ==> (#[trigger] claims[i])@.len() >= 3
}

fn claims_complete(claims: &Vec<Vec<GoldilocksExt2>>, n: usize) -> (r: bool)
    ensures
        r == chain_claims_complete(claims@, n as nat),
{
    if claims.len() < n {
        return false;
    }
    let mut i: usize = 0;
    while i < n
        invariant
            n <= claims@.len(),
            i <= n,
            forall|j: int| 0 <= j < i ==> (#[trigger] claims@[j])@.len() >= 3,
        decreases n - i,
    {
        if claims[i].len() < 3 {
            return false;
        }
        i = i + 1;
    }
    true
}

/// The proof has the claims that its sum-checks start from.
pub open spec fn statements_complete<S>(ctx: ConvCtx, proof: ConvProof<S>) -> bool {
    &&& proof.ifft_claims@.len() >= 2
    &&& proof.hadamard_clams@.len() >= 3
    &&& proof.fft_claims@.len() >= 2
    &&& proof.fft_weight_claims@.len() >= 2
    &&& proof.ifft_delegation_proof@.len() <= ctx.delegation_ifft@.len()
    &&& proof.fft_delegation_proof@.len() <= ctx.delegation_fft@.len()
    &&& proof.fft_delegation_proof_weights@.len() <= ctx.delegation_fft@.len()
    &&& chain_claims_complete(
        proof.ifft_delegation_claims@,
        proof.ifft_delegation_proof@.len(),
    )
    &&& chain_claims_complete(proof.fft_delegation_claims@, proof.fft_delegation_proof@.len())
    &&& chain_claims_complete(
        proof.fft_delegation_weights_claims@,
        proof.fft_delegation_proof_weights@.len(),
    )
}

/// What a list of sum-checks says.
pub open spec fn statement_views(s: Seq<SumcheckStatement>) -> Seq<(Fe, VPAuxInfo)> {
    Seq::new(s.len(), |i: int| (s[i].claim@, s[i].aux))
}

proof fn lemma_statement_push(s: Seq<SumcheckStatement>, x: SumcheckStatement)
    ensures
        statement_views(s.push(x)) == statement_views(s).push((x.claim@, x.aux)),
{
    assert(statement_views(s.push(x)) =~= statement_views(s).push((x.claim@, x.aux)));
}

/// The sum-checks of a chain.
pub open spec fn chain_statements(
    start: Fe,
    claims: Seq<Seq<Fe>>,
    n: nat,
    aux: Seq<VPAuxInfo>,
) -> Seq<(Fe, VPAuxInfo)> {
    Seq::new(n, |i: int| (chain_claim(start, claims, i), aux[i]))
}

/// The sum-checks of the verification of a convolution.
pub open spec fn conv_statements<S>(ctx: ConvCtx, last_eval: Fe, proof: ConvProof<S>) -> Seq<
    (Fe, VPAuxInfo),
> {
    seq![(fsub(last_eval, proof.bias_claim@), ctx.ifft_aux)] + chain_statements(
        proof.ifft_claims@[1]@,
        fviews2(proof.ifft_delegation_claims@),
        proof.ifft_delegation_proof@.len(),
        ctx.delegation_ifft@,
    ) + seq![
        (proof.ifft_claims@[0]@, ctx.hadamard),
        (proof.hadamard_clams@[1]@, ctx.fft_aux),
    ] + chain_statements(
        proof.fft_claims@[1]@,
        fviews2(proof.fft_delegation_claims@),
        proof.fft_delegation_proof@.len(),
        ctx.delegation_fft@,
    ) + seq![(proof.hadamard_clams@[0]@, ctx.fft_weights_aux)] + chain_statements(
        proof.fft_weight_claims@[1]@,
        fviews2(proof.fft_delegation_weights_claims@),
        proof.fft_delegation_proof_weights@.len(),
        ctx.delegation_fft@,
    )
}

/// Appends the sum-checks of a chain.
fn push_chain(
    r: &mut Vec<SumcheckStatement>,
    start: GoldilocksExt2,
    claims: &Vec<Vec<GoldilocksExt2>>,
    n: usize,
    aux: &Vec<VPAuxInfo>,
)
    requires
        n <= aux@.len(),
        chain_claims_complete(claims@, n as nat),
    ensures
        statement_views(final(r)@) == statement_views(old(r)@) + chain_statements(
            start@,
            fviews2(claims@),
            n as nat,
            aux@,
        ),
{
    let ghost before = statement_views(r@);
    let ghost want = chain_statements(start@, fviews2(claims@), n as nat, aux@);
    let mut claim = start;
    let mut i: usize = 0;
    assert(before + want.take(0) =~= before);
    while i < n
        invariant
            n <= aux@.len(),
            chain_claims_complete(claims@, n as nat),
            want == chain_statements(start@, fviews2(claims@), n as nat, aux@),
            i <= n,
            claim@ == chain_claim(start@, fviews2(claims@), i as int),
            statement_views(r@) == before + want.take(i as int),
        decreases n - i,
    {
        let s = SumcheckStatement { claim, aux: aux[i] };
        proof {
            lemma_statement_push(r@, s);
            assert(want.take(i + 1) =~= want.take(i as int).push(want[i as int]));
            assert(before + want.take(i + 1) =~= (before + want.take(i as int)).push(
                want[i as int],
            ));
            assert(claims@[i as int]@.len() >= 3);
        }
        r.push(s);
        claim = claims[i][2];
        i = i + 1;
    }
    assert(want.take(n as int) =~= want);
}

/// Whether the filters fit into the images.
pub fn shapes_go_together(input: &[usize], filter: &[usize]) -> (r: bool)
    ensures
        r == conv_shape_ok(input@, filter@),
{
    if input.len() < 3 || filter.len() < 3 {
        return false;
    }
    let h = if input.len() == 3 {
        input[1]
    } else {
        input[2]
    };
    1 <= filter[2] && filter[2] <= h
}

/// Whether the next powers of two of the dimensions can be held.
pub fn pow2_fits(s: &[usize]) -> (r: bool)
    ensures
        r == pow2_shape_fits(s@),
{
    let mut i: usize = 0;
    while i < s.len()
        invariant
            i <= s@.len(),
            forall|j: int| 0 <= j < i ==> npow2(#[trigger] s@[j] as nat) <= usize::MAX,
        decreases s@.len() - i,
    {
        if !has_next_power_of_two(s[i]) {
            assert(npow2(s@[i as int] as nat) > usize::MAX);
            return false;
        }
        i = i + 1;
    }
    true
}

/// Whether a vector of `n` entries is over the hypercube that `point` is a point of.
pub fn has_size(point: &[GoldilocksExt2], n: usize) -> (r: bool)
    ensures
        r == (pow2(point@.len()) == n),
{
    let mut p: usize = 1;
    let mut i: usize = 0;
    proof {
        lemma_pow2_zero();
    }
    while i < point.len()
        invariant
            i <= point@.len(),
            p == pow2(i as nat),
        decreases point@.len() - i,
    {
        proof {
            lemma_pow2_step(i as nat);
            lemma_pow2_mono(i as nat + 1, point@.len());
        }
        match p.checked_mul(2) {
            Some(q) => {
                p = q;
            },
            None => {
                return false;
            },
        }
        i = i + 1;
    }
    p == n
}

} // verus!
