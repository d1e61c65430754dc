//! Proofs of layers: what an honest prover sends is accepted, and anything else is not.
use zkml::Tensor;
use zkml::claim::Claim;
use zkml::commit::identity_eval;
use zkml::field::GoldilocksExt2;
use zkml::layers::conv_steps::concat_points;
use zkml::layers::convolution::Convolution;
use zkml::layers::dense::{Dense, DenseCtx, DenseProof};
use zkml::layers::provable::{ProductTerm, SubClaim, SumcheckProof, VPAuxInfo};
use zkml::layers::requant::{Requant, RequantCtx};
use zkml::mle::mle_evaluate;
use zkml::quantization::{Element, to_field};

type F = GoldilocksExt2;

/// A source of numbers that look random.
struct Source(u64);

impl Source {
    fn next(&mut self) -> u64 {
        self.0 ^= self.0 << 13;
        self.0 ^= self.0 >> 7;
        self.0 ^= self.0 << 17;
        self.0
    }

    fn point(&mut self, n: usize) -> Vec<F> {
        (0..n).map(|_| F::from_u64(self.next()).plus(F { c0: 0, c1: self.next() % 97 })).collect()
    }

    fn tensor(&mut self, shape: &[usize]) -> Tensor<Element> {
        let n: usize = shape.iter().product();
        let data = (0..n).map(|_| (self.next() % 255) as Element - 127).collect();
        Tensor::new(shape.to_vec(), data)
    }
}

/// The sum over the hypercube of a product of polynomials.
fn sum_of(t: &ProductTerm) -> F {
    let n = t.factors[0].len();
    let mut sum = F::zero();
    for k in 0..n {
        let mut p = t.coefficient;
        for f in &t.factors {
            p = p.times(f[k]);
        }
        sum = sum.plus(p);
    }
    sum
}

/// The value of a product of polynomials at a point.
fn value_of(t: &ProductTerm, point: &[F]) -> F {
    let mut p = t.coefficient;
    for f in &t.factors {
        p = p.times(mle_evaluate(f, point));
    }
    p
}

#[test]
fn a_dense_layer_is_proved() {
    let mut source = Source(31);
    let dense = Dense::new(source.tensor(&[4, 8]), source.tensor(&[4]));
    let input = source.tensor(&[8]);
    let output = dense.evaluate(&[&input]).unwrap().outputs()[0].clone();
    let p = source.point(2);
    let last_claim = Claim::new(p.clone(), mle_evaluate(&output.evals_flat(), &p));
    let start =
        dense.start_proving(&last_claim, &input.evals_flat(), &output.evals_flat()).unwrap();
    let s = source.point(3);
    let evals: Vec<F> = start.term.factors.iter().map(|f| mle_evaluate(f, &s)).collect();
    let proof = DenseProof {
        sumcheck: SumcheckProof { point: s.clone(), messages: () },
        bias_eval: start.bias_eval,
        individual_claims: evals.clone(),
    };
    // the sum-check starts from the right value
    assert!(DenseCtx::initial_evaluation(&last_claim, &proof).same(&sum_of(&start.term)));
    // and ends with the right one
    let ctx = DenseCtx {
        node_id: 0,
        matrix_poly_aux: VPAuxInfo { max_degree: 2, num_variables: 3 },
        unpadded_matrix_shape: vec![4, 8],
        padded_matrix_shape: vec![4, 8],
    };
    let subclaim =
        SubClaim { point: s.clone(), expected_evaluation: value_of(&start.term, &s) };
    let outcome = ctx.finish_verifying(&last_claim, &proof, &subclaim).unwrap();
    // the claims that are left are true
    let w = &outcome.weights_claim;
    assert!(w.eval.same(&mle_evaluate(&dense.matrix.evals_flat(), &w.point)));
    let b = &outcome.bias_claim;
    assert!(b.eval.same(&mle_evaluate(&dense.bias.evals_flat(), &b.point)));
    let x = &outcome.next_claim;
    assert!(x.eval.same(&mle_evaluate(&input.evals_flat(), &x.point)));
    // a wrong value is not accepted
    let mut wrong = proof.clone();
    wrong.individual_claims[0] = evals[0].plus(F::one());
    assert_eq!(
        ctx.finish_verifying(&last_claim, &wrong, &subclaim).unwrap_err().message(),
        "ProvableOp generic error: sumcheck claim failed"
    );
    wrong.individual_claims.clear();
    assert!(ctx.finish_verifying(&last_claim, &wrong, &subclaim).is_err());
    // the prover notices sizes that do not go together
    assert_eq!(
        dense
            .start_proving(&last_claim, &input.evals_flat()[..4], &output.evals_flat())
            .unwrap_err()
            .message(),
        "ProvableOp generic error: something's wrong with the input"
    );
}

#[test]
fn a_requantisation_is_proved() {
    let mut source = Source(32);
    let scale = Requant::fixed_point_scale(3);
    let requant = Requant::new(3, (1 << scale) - 12345, 16);
    let input = source.tensor(&[4]);
    let columns = requant.lookup_columns(&[input.clone()], 1).unwrap();
    let (last, clamp, shift) = (source.point(2), source.point(2), source.point(2));
    let challenge = source.point(1)[0];
    let terms = Requant::accumulation_terms(
        &last,
        &clamp,
        &shift,
        &columns.clamping,
        &columns.shifted,
        challenge,
    )
    .unwrap();
    let mut sum = F::zero();
    for t in &terms {
        sum = sum.plus(sum_of(t));
    }
    let last_claim = Claim::new(last.clone(), mle_evaluate(&columns.clamping[1], &last));
    let clamping_evals: Vec<F> =
        columns.clamping.iter().map(|c| mle_evaluate(c, &clamp)).collect();
    let shifted_evals: Vec<F> =
        columns.shifted.iter().map(|c| mle_evaluate(c, &shift)).collect();
    let initial =
        RequantCtx::initial_evaluation(&last_claim, &clamping_evals, &shifted_evals, challenge)
            .unwrap();
    assert!(initial.same(&sum));
    // after the sum-check
    let s = source.point(2);
    let mut expected = F::zero();
    for t in &terms {
        expected = expected.plus(value_of(t, &s));
    }
    let mut evals: Vec<F> = columns.clamping.iter().map(|c| mle_evaluate(c, &s)).collect();
    evals.extend(columns.shifted.iter().map(|c| mle_evaluate(c, &s)));
    let ctx = RequantCtx { requant, node_id: 0, num_vars: 2 };
    let subclaim = SubClaim { point: s.clone(), expected_evaluation: expected };
    let outcome = ctx
        .finish_verifying(&last_claim, &clamp, &shift, &evals, challenge, &subclaim)
        .unwrap();
    // the claim about the input is true
    let c = &outcome.next_claim;
    assert!(c.eval.same(&mle_evaluate(&input.evals_flat(), &c.point)));
    // wrong values are not accepted
    let mut wrong = evals.clone();
    wrong[2] = wrong[2].plus(F::one());
    let weight = challenge.times(challenge).times(challenge).times(identity_eval(&shift, &s));
    assert_eq!(
        ctx.finish_verifying(&last_claim, &clamp, &shift, &wrong, challenge, &subclaim)
            .unwrap_err()
            .message(),
        format!(
            "ProvableOp generic error: The calculated claim did not line up with the expected \
             claim, calculated: {:?}, expected: {:?}",
            expected.plus(weight),
            expected
        )
    );
    assert!(
        ctx.finish_verifying(&last_claim, &clamp, &shift, &evals[..1], challenge, &subclaim)
            .is_err()
    );
    assert!(
        ctx.finish_verifying(&last_claim, &clamp[..1], &shift, &evals, challenge, &subclaim)
            .is_err()
    );
    assert!(RequantCtx::initial_evaluation(&last_claim, &[], &[], challenge).is_err());
}

fn flat(v: &[Vec<F>]) -> Vec<F> {
    v.iter().flat_map(|x| x.iter().copied()).collect()
}

#[test]
fn the_claims_about_a_convolution_go_together() {
    let mut source = Source(33);
    let conv = Convolution::new(source.tensor(&[2, 2, 2, 2]), source.tensor(&[2]))
        .into_padded_and_ffted(&[2, 4, 4]);
    let input = source.tensor(&[2, 4, 4]);
    let (_, data) = conv.op(&input, &[2, 4, 4]);
    let after_bias: Vec<F> = data.output_as_element.iter().map(|x| to_field(*x)).collect();
    // 16 entries in each of two channels
    let p = source.point(5);
    let last_claim = Claim::new(p.clone(), mle_evaluate(&after_bias, &p));
    let start = conv.start_proving(&last_claim, &data).unwrap();
    // the claim about the output is one about the inverse transforms
    let y = mle_evaluate(&flat(&data.output), &start.r);
    assert!(last_claim.eval.minus(start.bias_eval).same(&y));
    // the products of the transforms
    let r2 = source.point(5);
    let r1 = source.point(1);
    let term = conv.hadamard_term(&data, &r1, &r2);
    let prod = mle_evaluate(&flat(&data.prod), &concat_points(&r2, &r1));
    assert!(sum_of(&term).same(&prod));
    // the filters
    let hp = source.point(6);
    let all = concat_points(&hp, &r1);
    let reduction = conv.reduce_weights(&all);
    let rand = source.point(2);
    let filters: Vec<F> = conv.filter.get_data().iter().map(|x| to_field(*x)).collect();
    let whole = concat_points(&rand, &all[5..]);
    assert!(
        mle_evaluate(&reduction.partial_evals, &rand).same(&mle_evaluate(&filters, &whole))
    );
    // the input
    let fft_point = source.point(5);
    let mut padded: Vec<F> = Vec::new();
    for channel in &data.input {
        padded.extend(channel.iter().copied());
        padded.extend((0..channel.len()).map(|_| F::zero()));
    }
    let fft_claim = mle_evaluate(&padded, &concat_points(&fft_point, &hp[5..]));
    let outcome = conv.finish_proving(
        &start,
        &hp,
        &r1,
        &reduction.partial_evals,
        &rand,
        &fft_point,
        fft_claim,
    );
    let c = &outcome.next_claim;
    assert!(c.eval.same(&mle_evaluate(&input.evals_flat(), &c.point)));
    let f = &outcome.filter_claim;
    assert!(f.eval.same(&mle_evaluate(&filters, &f.point)));
    let b = &outcome.bias_claim;
    assert!(b.eval.same(&mle_evaluate(&conv.bias.evals_flat(), &b.point)));
    // the laid out filters
    let s = source.point(5);
    let claim = mle_evaluate(&reduction.laid_out, &s);
    let v = F::one().minus(s[4]).invert().unwrap();
    let mut want = F::zero();
    for i in 0..2 {
        for j in 0..2 {
            let bits = zkml::commit::to_bits(i * 4 + j, 4);
            want = want
                .plus(reduction.partial_evals[i * 2 + j].times(identity_eval(&bits, &s[..4])));
        }
    }
    assert!(claim.times(v).same(&want));
}

#[test]
fn sizes_of_a_convolution_claim() {
    let mut source = Source(34);
    let conv = Convolution::new(source.tensor(&[2, 2, 2, 2]), source.tensor(&[2]))
        .into_padded_and_ffted(&[2, 4, 4]);
    let (_, data) = conv.op(&source.tensor(&[2, 4, 4]), &[2, 4, 4]);
    let short = Claim::new(source.point(4), F::one());
    assert_eq!(
        conv.start_proving(&short, &data).unwrap_err().message(),
        "ProvableOp generic error: Inconsistent random point size"
    );
}
