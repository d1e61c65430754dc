//! Convolutions proved from end to end, with the chains of sum-checks for the Fourier matrices.
use zkml::Tensor;
use zkml::claim::Claim;
use zkml::commit::{compute_betas_eval, to_bits};
use zkml::fft::{fft, get_root_of_unity};
use zkml::field::GoldilocksExt2;
use zkml::iop::context::{ContextAux, ShapeStep};
use zkml::layers::conv_steps::{ConvProof, HadamardProof, concat_points};
use zkml::layers::convolution::{ConvCtx, Convolution, new_clearing_tensor};
use zkml::layers::delegation::{check_fft_chain, check_ifft_chain, phi_eval, pow_two_omegas};
use zkml::layers::provable::SumcheckProof;
use zkml::mle::mle_evaluate;
use zkml::quantization::{Element, to_field};

type F = GoldilocksExt2;

/// A source of numbers that look random.
struct Source(u64);

impl Source {
    fn next(&mut self) -> u64 {
        self.0 ^= self.0 << 13;
        self.0 ^= self.0 >> 7;
        self.0 ^= self.0 << 17;
        self.0
    }

    fn point(&mut self, n: usize) -> Vec<F> {
        (0..n).map(|_| F::from_u64(self.next()).plus(F { c0: 0, c1: self.next() % 97 })).collect()
    }

    fn tensor(&mut self, shape: &[usize]) -> Tensor<Element> {
        let n: usize = shape.iter().product();
        let data = (0..n).map(|_| (self.next() % 255) as Element - 127).collect();
        Tensor::new(shape.to_vec(), data)
    }
}

fn power(x: F, n: usize) -> F {
    (0..n).fold(F::one(), |p, _| p.times(x))
}

/// What is left of a row of the Fourier matrix after `k` steps.
fn delegated(s: F, r: &[F], w: F, k: usize) -> Vec<F> {
    (0..1 << (r.len() - k))
        .map(|b| {
            let mut p = s;
            for (j, x) in r.iter().enumerate().skip(k) {
                let g = power(w, b << j);
                p = p.times(F::one().minus(*x).plus(x.times(g)));
            }
            p
        })
        .collect()
}

fn sum_of_products(factors: &[Vec<F>]) -> F {
    (0..factors[0].len()).fold(F::zero(), |sum, b| {
        sum.plus(factors.iter().fold(F::one(), |p, f| p.times(f[b])))
    })
}

fn half_filled(mut v: Vec<F>) -> Vec<F> {
    let n = v.len();
    for x in v[n / 2..].iter_mut() {
        *x = F::zero();
    }
    v
}

struct Chain {
    claim: F,
    points: Vec<Vec<F>>,
    claims: Vec<Vec<F>>,
}

/// The chain of an honest prover.
fn chain(s: F, r: &[F], inverse: bool, start: &[F], source: &mut Source) -> Chain {
    let n = r.len();
    let mut w = get_root_of_unity(n);
    if inverse {
        w = w.invert().unwrap();
    }
    let e = pow_two_omegas(n, inverse);
    let mut v = delegated(s, r, w, 0);
    if !inverse {
        v = half_filled(v);
    }
    let claim = mle_evaluate(&v, start);
    let mut prev = start.to_vec();
    let (mut points, mut claims): (Vec<Vec<F>>, Vec<Vec<F>>) = (Vec::new(), Vec::new());
    for i in 0..n - 1 {
        let m = n - 1 - i;
        let first = !inverse && i == 0;
        let row: Vec<F> =
            (0..1 << m).map(|b| phi_eval(&to_bits(b, m), r[i], prev[m], &e, first)).collect();
        let next = delegated(s, r, w, i + 1);
        let factors = vec![compute_betas_eval(&prev[..m]), row, next.clone()];
        // each step starts from the value of the vector before
        assert!(mle_evaluate(&v, &prev).same(&sum_of_products(&factors)));
        let point = source.point(m);
        claims.push(factors.iter().map(|f| mle_evaluate(f, &point)).collect());
        points.push(point.clone());
        v = next;
        prev = point;
    }
    Chain { claim, points, claims }
}

#[test]
fn chains_of_an_honest_prover_hold() {
    let mut source = Source(71);
    for n in 2..6 {
        let (r, start) = (source.point(n), source.point(n));
        let c = chain(F::one(), &r, false, &start, &mut source);
        assert!(check_fft_chain(c.claim, &start, &c.points, &c.claims, &r));
        for i in 0..c.claims.len() {
            for j in 0..3 {
                let mut wrong = c.claims.clone();
                wrong[i][j] = wrong[i][j].plus(F::one());
                // what a step leaves of the vector is checked by the next sum-check
                let seen = j < 2 || i + 1 == c.claims.len();
                assert_eq!(check_fft_chain(c.claim, &start, &c.points, &wrong, &r), !seen);
            }
        }
        assert!(!check_fft_chain(c.claim, &start, &c.points, &c.claims, &r[..n - 1]));
        let mut r = source.point(n - 1);
        r.push(F::zero());
        let scale = F::from_u64(1 << n).invert().unwrap();
        let c = chain(scale, &r, true, &start, &mut source);
        assert!(check_ifft_chain(c.claim, &start, &c.points, &c.claims, &r[..n - 1]));
        assert!(!check_ifft_chain(c.claim, &start, &c.points, &c.claims[1..], &r));
    }
}

#[test]
fn transforms_are_sums_over_rows() {
    let mut source = Source(72);
    for n in 1..5 {
        let r = source.point(n);
        let x = source.point(1 << n);
        let mut y = x.clone();
        fft(&mut y, false);
        let w = get_root_of_unity(n);
        let row = delegated(F::one(), &r, w, 0);
        assert!(mle_evaluate(&y, &r).same(&sum_of_products(&[x.clone(), row])));
        let mut y = x.clone();
        fft(&mut y, true);
        let scale = F::from_u64(1 << n).invert().unwrap();
        let row = delegated(scale, &r, w.invert().unwrap(), 0);
        assert!(mle_evaluate(&y, &r).same(&sum_of_products(&[x, row])));
    }
}

fn sumchecks(points: &[Vec<F>]) -> Vec<SumcheckProof<()>> {
    points.iter().map(|p| SumcheckProof { point: p.clone(), messages: () }).collect()
}

fn one_sumcheck(point: &[F]) -> SumcheckProof<()> {
    SumcheckProof { point: point.to_vec(), messages: () }
}

fn same_points(a: &[F], b: &[F]) -> bool {
    a.len() == b.len() && a.iter().zip(b).all(|(x, y)| x.same(y))
}

struct Proved {
    ctx: ConvCtx,
    last_claim: Claim<F>,
    proof: ConvProof<()>,
    weights_rand: Vec<F>,
    conv: Convolution<Element>,
    input: Tensor<Element>,
}

/// A convolution of two channels with two filters, and its honest proof. The statements of the
/// sum-checks are compared with the sums that they are about.
fn prove() -> Proved {
    let mut source = Source(73);
    let conv = Convolution::new(source.tensor(&[2, 2, 2, 2]), source.tensor(&[2]))
        .into_padded_and_ffted(&[2, 4, 4]);
    let input = source.tensor(&[2, 4, 4]);
    let (_, data) = conv.op(&input, &[2, 4, 4]);
    let aux =
        ContextAux { tables: vec![], last_output_shape: vec![vec![2, 4, 4]], model_polys: vec![] };
    let (ctx, _) = conv.step_info(3, aux);
    let after_bias: Vec<F> = data.output_as_element.iter().map(|x| to_field(*x)).collect();
    let p = source.point(5);
    let last_claim = Claim::new(p.clone(), mle_evaluate(&after_bias, &p));
    let start = conv.start_proving(&last_claim, &data).unwrap();
    let (l, w) = (5, get_root_of_unity(5));
    // the inverse transforms
    let (r_out, r1) = (start.r[..l].to_vec(), start.r[l..].to_vec());
    let ip = source.point(l);
    let scale = F::from_u64(32).invert().unwrap();
    let ifft = chain(scale, &r_out, true, &ip, &mut source);
    let column: Vec<F> = (0..32)
        .map(|t| {
            let rows: Vec<F> = data.prod.iter().map(|c| c[t]).collect();
            mle_evaluate(&rows, &r1)
        })
        .collect();
    let row = delegated(scale, &r_out, w.invert().unwrap(), 0);
    let ifft_sum = sum_of_products(&[column.clone(), row]);
    let ifft_claims = vec![mle_evaluate(&column, &ip), ifft.claim];
    // the products
    let term = conv.hadamard_term(&data, &r1, &ip);
    let hadamard_sum = sum_of_products(&term.factors);
    let hp = source.point(6);
    let hadamard_clams: Vec<F> = term.factors.iter().map(|f| mle_evaluate(f, &hp)).collect();
    // the transforms of the input
    let fp = source.point(l);
    let fft_chain = chain(F::one(), &hp[..l], false, &fp, &mut source);
    let column: Vec<F> = (0..32)
        .map(|t| {
            let zero = F::zero();
            let rows: Vec<F> =
                data.input.iter().map(|c| if t < c.len() { c[t] } else { zero }).collect();
            mle_evaluate(&rows, &hp[l..])
        })
        .collect();
    let row = half_filled(delegated(F::one(), &hp[..l], w, 0));
    let fft_sum = sum_of_products(&[column.clone(), row.clone()]);
    let fft_claims = vec![mle_evaluate(&column, &fp), fft_chain.claim];
    // the transforms of the filters
    let wp = source.point(l);
    let reduction = conv.reduce_weights(&concat_points(&hp, &r1));
    let weights_chain = chain(F::one(), &hp[..l], false, &wp, &mut source);
    let weights_sum = sum_of_products(&[reduction.laid_out.clone(), row]);
    let fft_weight_claims = vec![mle_evaluate(&reduction.laid_out, &wp), weights_chain.claim];
    let proof = ConvProof {
        fft_proof: one_sumcheck(&fp),
        fft_proof_weights: one_sumcheck(&wp),
        fft_delegation_proof: sumchecks(&fft_chain.points),
        fft_delegation_proof_weights: sumchecks(&weights_chain.points),
        ifft_proof: one_sumcheck(&ip),
        ifft_delegation_proof: sumchecks(&ifft.points),
        hadamard_proof: one_sumcheck(&hp),
        fft_claims,
        fft_weight_claims,
        ifft_claims,
        fft_delegation_claims: fft_chain.claims.clone(),
        fft_delegation_weights_claims: weights_chain.claims.clone(),
        ifft_delegation_claims: ifft.claims.clone(),
        partial_evals: reduction.partial_evals,
        hadamard_clams,
        bias_claim: start.bias_eval,
        clearing_proof: HadamardProof {
            sumcheck: one_sumcheck(&p),
            individual_claims: vec![last_claim.eval],
        },
    };
    // the sum-checks start from the sums that they are about
    let statements = ctx.sumcheck_statements(&last_claim, &proof).unwrap();
    assert_eq!(statements.len(), 4 + 3 * 4);
    assert!(statements[0].claim.same(&ifft_sum));
    assert!(statements[1].claim.same(&ifft.claim));
    assert!(statements[5].claim.same(&hadamard_sum));
    assert!(statements[6].claim.same(&fft_sum));
    assert!(statements[7].claim.same(&fft_chain.claim));
    assert!(statements[11].claim.same(&weights_sum));
    assert!(statements[12].claim.same(&weights_chain.claim));
    assert_eq!(statements[0].aux.num_variables, 5);
    assert_eq!(statements[1].aux.num_variables, 4);
    assert_eq!(statements[4].aux.num_variables, 1);
    assert_eq!(statements[5].aux.num_variables, 6);
    // in the order in which they are listed
    let listed = proof.sumchecks();
    assert_eq!(listed.len(), statements.len());
    assert!(same_points(&listed[0].point, &ip));
    assert!(same_points(&listed[1].point, &ifft.points[0]));
    assert!(same_points(&listed[5].point, &hp));
    assert!(same_points(&listed[6].point, &fp));
    assert!(same_points(&listed[7].point, &fft_chain.points[0]));
    assert!(same_points(&listed[11].point, &wp));
    assert!(same_points(&listed[15].point, &weights_chain.points[3]));
    let weights_rand = source.point(2);
    // prover and verifier end with the same claims
    let proved = conv.finish_proving(
        &start,
        &hp,
        &r1,
        &proof.partial_evals,
        &weights_rand,
        &fp,
        proof.fft_claims[0],
    );
    let verified = ctx.finish_verifying(&last_claim, &proof, &weights_rand).unwrap();
    for (a, b) in [
        (&proved.filter_claim, &verified.filter_claim),
        (&proved.bias_claim, &verified.bias_claim),
        (&proved.next_claim, &verified.next_claim),
    ] {
        assert!(same_points(&a.point, &b.point) && a.eval.same(&b.eval));
    }
    Proved { ctx, last_claim, proof, weights_rand, conv, input }
}

#[test]
fn a_convolution_is_accepted() {
    let Proved { ctx, last_claim, proof, weights_rand, conv, input } = prove();
    assert!(ctx.check_claims(&last_claim, &proof).is_ok());
    let outcome = ctx.finish_verifying(&last_claim, &proof, &weights_rand).unwrap();
    // the claims that are left are true
    let c = &outcome.next_claim;
    assert!(c.eval.same(&mle_evaluate(&input.evals_flat(), &c.point)));
    let filters: Vec<F> = conv.filter.get_data().iter().map(|x| to_field(*x)).collect();
    let f = &outcome.filter_claim;
    assert!(f.eval.same(&mle_evaluate(&filters, &f.point)));
    let b = &outcome.bias_claim;
    assert!(b.eval.same(&mle_evaluate(&conv.bias.evals_flat(), &b.point)));
}

#[test]
fn wrong_claims_about_a_convolution_are_not_accepted() {
    let Proved { ctx, last_claim, proof, weights_rand, .. } = prove();
    let fault = |p: &ConvProof<()>| match ctx.check_claims(&last_claim, p) {
        Ok(()) => String::new(),
        Err(e) => e.message(),
    };
    let mut p = proof.clone();
    p.ifft_delegation_claims[1][0] = F::zero();
    assert_eq!(fault(&p), "ProvableOp generic error: Error in iFFT delegation");
    let mut p = proof.clone();
    p.ifft_delegation_proof.pop();
    assert_eq!(
        fault(&p),
        "ProvableOp generic error: Inconsistency in iFFT delegation proofs/aux size"
    );
    let mut p = proof.clone();
    p.hadamard_clams[2] = F::zero();
    assert_eq!(fault(&p), "ProvableOp generic error: Error in Beta evaluation");
    let mut p = proof.clone();
    p.fft_delegation_proof.pop();
    assert_eq!(
        fault(&p),
        "ProvableOp generic error: Inconsistency in FFT delegation proofs/aux size"
    );
    let mut p = proof.clone();
    p.fft_delegation_claims[3][2] = F::zero();
    assert_eq!(fault(&p), "ProvableOp generic error: Error in FFT delegation");
    let mut p = proof.clone();
    p.fft_delegation_weights_claims[0][1] = F::zero();
    assert_eq!(fault(&p), "ProvableOp generic error: Error in FFT delegation of the weights");
    let mut p = proof.clone();
    p.partial_evals[0] = p.partial_evals[0].plus(F::one());
    assert_eq!(fault(&p), "ProvableOp generic error: Error in padded_fft evaluation claim");
    let mut p = proof.clone();
    p.fft_claims.pop();
    assert_eq!(
        ctx.sumcheck_statements(&last_claim, &p).unwrap_err().message(),
        "ProvableOp generic error: The proof of the convolution lacks a claim"
    );
    assert_eq!(
        ctx.finish_verifying(&last_claim, &proof, &weights_rand[..1]).unwrap_err().message(),
        "ProvableOp generic error: The points of the convolution proof have the wrong size"
    );
}

#[test]
fn the_clearing_of_a_convolution_is_evaluated() {
    let mut source = Source(74);
    let conv = Convolution::new(source.tensor(&[2, 1, 2, 2]), source.tensor(&[2]))
        .into_padded_and_ffted(&[1, 3, 3]);
    let aux =
        ContextAux { tables: vec![], last_output_shape: vec![vec![1, 4, 4]], model_polys: vec![] };
    let (ctx, _) = conv.step_info(3, aux);
    let step = ShapeStep {
        unpadded_input_shape: vec![vec![1, 3, 3]],
        padded_input_shape: vec![vec![1, 4, 4]],
        unpadded_output_shape: vec![vec![2, 2, 2]],
        padded_output_shape: vec![vec![2, 4, 4]],
    };
    let point = source.point(5);
    let (len, eval) = ctx.clearing_evaluation(&step, &point).unwrap();
    assert_eq!(len, 32);
    let clearing = new_clearing_tensor(&[2, 2, 2], &[2, 4, 4]);
    assert!(eval.same(&mle_evaluate(&clearing.evals_flat(), &point)));
    assert_eq!(
        ctx.clearing_evaluation(&step, &point[1..]).unwrap_err().message(),
        "ProvableOp generic error: The point of the clearing proof has the wrong size"
    );
    let mut two = step.clone();
    two.unpadded_input_shape.push(vec![1, 3, 3]);
    assert_eq!(
        ctx.clearing_evaluation(&two, &point).unwrap_err().message(),
        "ProvableOp generic error: More than 1 unpadded input shape found for convolution layer"
    );
    let mut two = step;
    two.padded_input_shape.clear();
    assert_eq!(
        ctx.clearing_evaluation(&two, &point).unwrap_err().message(),
        "ProvableOp generic error: More than 1 padded input shape found for convolution layer"
    );
}
