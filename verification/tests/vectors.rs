//! Vectors, multilinear extensions and the parts of commitments that are arithmetic.
use zkml::arith::next_power_of_two;
use zkml::claim::Claim;
use zkml::commit::error::PCSError;
use zkml::commit::{
    aggregated_rlc, compute_beta_eval_poly, compute_betas_eval, get_offset_product, identity_eval,
    to_bits,
};
use zkml::fft::{fft, get_root_of_unity};
use zkml::field::GoldilocksExt2;
use zkml::mle::{fix_high_variables, mle_evaluate};
use zkml::vector::{Transcript, argmax_compare, to_bit_sequence_le};
use zkml::{NextPowerOfTwo, VectorTranscript, argmax, pad_vector};

type F = GoldilocksExt2;

/// A source of numbers that look random.
struct Source(u64);

impl Source {
    fn next(&mut self) -> u64 {
        self.0 ^= self.0 << 13;
        self.0 ^= self.0 >> 7;
        self.0 ^= self.0 << 17;
        self.0
    }

    fn field(&mut self) -> F {
        // both coordinates
        let a = F::from_u64(self.next());
        let b = F { c0: 0, c1: self.next() % 1000 };
        a.plus(b)
    }

    fn bools(&mut self, n: usize) -> Vec<F> {
        (0..n).map(|_| if self.next() % 2 == 0 { F::zero() } else { F::one() }).collect()
    }
}

fn all_same(a: &[F], b: &[F]) -> bool {
    a.len() == b.len() && a.iter().zip(b.iter()).all(|(x, y)| x.same(y))
}

#[test]
fn test_identity_eval() {
    let mut source = Source(21);
    let n = 4;
    let r1 = source.bools(n);

    // When vectors are identical, should return 1
    let r2 = r1.clone();
    let result = identity_eval(&r1, &r2);
    assert!(result.same(&F::one()));

    // When vectors are different, should return 0
    let r2 = source.bools(n);
    let result = identity_eval(&r1, &r2);
    assert!(all_same(&r1, &r2) || result.same(&F::zero()));
}

#[test]
fn test_get_offset_product() {
    let size = 4; // Original polynomial of size 4 (2^2 variables)
    let r = vec![F::one(), F::zero(), F::one(), F::zero()]; // Some test point

    // When evaluating at position 0 (first slice)
    let result0 = get_offset_product(size, 0, &r);

    // When evaluating at position 4 (second slice)
    let result4 = get_offset_product(size, 4, &r);

    // Results will be different because they're enforcing different slices
    assert!(!result0.same(&result4));
}

#[test]
fn test_vector_mle() {
    let mut source = Source(22);
    let n = (10 as usize).next_power_of_two();
    let v: Vec<F> = (0..n).map(|_| source.field()).collect();
    let random_index = (source.next() as usize) % v.len();
    let eval: Vec<F> =
        to_bit_sequence_le(random_index, v.len().next_power_of_two().ilog2() as usize)
            .into_iter()
            .map(|b| F::from_u64(b as u64))
            .collect();
    let output = mle_evaluate(&v, &eval);
    assert!(output.same(&v[random_index]));
}

#[test]
fn fixing_variables_and_evaluating_is_evaluating() {
    let mut source = Source(23);
    let v: Vec<F> = (0..16).map(|_| source.field()).collect();
    let point: Vec<F> = (0..4).map(|_| source.field()).collect();
    let fixed = fix_high_variables(&v, &point[2..]);
    assert_eq!(fixed.len(), 4);
    assert!(mle_evaluate(&fixed, &point[..2]).same(&mle_evaluate(&v, &point)));
}

#[test]
fn betas_add_up_to_one() {
    let mut source = Source(24);
    let r: Vec<F> = (0..3).map(|_| source.field()).collect();
    let betas = compute_betas_eval(&r);
    assert_eq!(betas.len(), 8);
    let sum = betas.iter().fold(F::zero(), |a, b| a.plus(*b));
    assert!(sum.same(&F::one()));
    // each is the equality with the bits of its place
    for (i, b) in betas.iter().enumerate() {
        assert!(b.same(&identity_eval(&to_bits(i, 3), &r)));
    }
    assert!(aggregated_rlc(&betas[..2], &[F::one(), F::zero()]).same(&betas[0]));
}

#[test]
fn the_beta_polynomial_of_one_claim() {
    let mut source = Source(25);
    let r: Vec<F> = (0..2).map(|_| source.field()).collect();
    let p: Vec<F> = (0..2).map(|_| source.field()).collect();
    let got = compute_beta_eval_poly(vec![4], &[F::from_u64(3)], &[r.clone()], &p);
    let want = identity_eval(&r, &p).times(F::from_u64(3));
    assert!(got.same(&want));
}

#[test]
fn the_transform_of_a_product() {
    // (1 + 2x)(3 + x) = 3 + 7x + 2x^2
    let f = |x: u64| F::from_u64(x);
    let mut a = vec![f(1), f(2), f(0), f(0)];
    let mut b = vec![f(3), f(1), f(0), f(0)];
    fft(&mut a, false);
    fft(&mut b, false);
    let mut c: Vec<F> = a.iter().zip(b.iter()).map(|(x, y)| x.times(*y)).collect();
    fft(&mut c, true);
    assert!(all_same(&c, &[f(3), f(7), f(2), f(0)]));
    // the transform is not the identity
    assert!(!all_same(&a, &[f(1), f(2), f(0), f(0)]));
}

#[test]
fn roots_of_unity() {
    let w = get_root_of_unity(2);
    let w2 = w.times(w);
    assert!(w2.times(w2).same(&F::one()));
    assert!(!w2.same(&F::one()));
}

#[test]
fn field_operations() {
    let p: u64 = 0xffff_ffff_0000_0001;
    assert!(F::from_u64(p).same(&F::zero()));
    assert!(F::from_u64(p - 1).plus(F::one()).same(&F::zero()));
    let x = F { c0: 0, c1: 1 };
    assert!(x.times(x).same(&F::from_u64(7)));
    let y = F { c0: 5, c1: 9 };
    assert!(y.times(y.invert().unwrap()).same(&F::one()));
    assert!(F::zero().invert().is_none());
    assert!(y.minus(y).same(&F::zero()));
}

#[test]
fn claims_are_padded_and_cut() {
    let c = Claim::new(vec![F::from_u64(4), F::from_u64(5)], F::from_u64(6));
    let longer = c.pad(3);
    assert!(all_same(&longer.point, &[F::from_u64(4), F::from_u64(5), F::zero()]));
    let shorter = c.pad(1);
    assert!(all_same(&shorter.point, &[F::from_u64(4)]));
    assert!(shorter.eval.same(&F::from_u64(6)));
    assert!(all_same(&longer.pad(2).point, &c.point));
}

#[test]
fn the_first_of_several_maxima() {
    assert_eq!(argmax(&[1, 5, 3, 5]), Some(1));
    assert_eq!(argmax::<i32>(&[]), None);
    assert_eq!(argmax(&[-3]), Some(0));
    assert_eq!(argmax(&[0.5f32, 2.5, -1.0]), Some(1));
    assert_eq!(argmax_compare(&[1, 9, 3], &[2.0f32, 4.0]), 1);
    assert_eq!(argmax_compare(&[1, 9, 3], &[4.0f32, 2.0, 1.0]), 0);
    assert_eq!(argmax_compare::<i32, i32>(&[], &[1]), 1);
}

#[test]
fn vectors_are_filled_up() {
    let v = pad_vector(vec![F::from_u64(1), F::from_u64(2), F::from_u64(3)]);
    assert!(all_same(&v, &[F::from_u64(1), F::from_u64(2), F::from_u64(3), F::zero()]));
    assert_eq!(pad_vector(vec![]).len(), 1);
    assert_eq!(pad_vector(vec![F::one()]).len(), 1);
    assert_eq!(NextPowerOfTwo::next_power_of_two(&vec![3usize, 4, 0, 17]), vec![4, 4, 1, 32]);
    assert_eq!(next_power_of_two(9), 16);
}

#[test]
fn the_bits_of_a_number() {
    assert_eq!(to_bit_sequence_le(6, 4), vec![0, 1, 1, 0]);
    assert_eq!(to_bit_sequence_le(6, 2), vec![0, 1]);
    assert_eq!(to_bit_sequence_le(usize::MAX, 64), vec![1; 64]);
}

struct Counter(u64);

impl Transcript for Counter {
    fn read_challenge(&mut self) -> F {
        self.0 += 1;
        F::from_u64(self.0)
    }
}

#[test]
fn challenges_come_in_order() {
    let mut t = Counter(0);
    let c = t.read_challenges(3);
    assert!(all_same(&c, &[F::from_u64(1), F::from_u64(2), F::from_u64(3)]));
    assert_eq!(t.read_challenges(0).len(), 0);
}

#[test]
fn texts_of_commitment_errors() {
    let e = PCSError::ParameterError("no \"such\" thing".to_string());
    assert!(e.message().contains("no \"such\" thing"));
    assert_eq!(e.debug_message(), "ParameterError(\"no \\\"such\\\" thing\")");
}

#[test]
fn the_beta_polynomial_of_several_claims() {
    // vectors of four, two and one entries, one behind the other
    let ris = vec![vec![F::from_u64(3), F::from_u64(5)], vec![F::from_u64(7)], vec![]];
    let challenges = vec![F::from_u64(11), F::from_u64(13), F::from_u64(17)];
    let point = vec![F::from_u64(19), F::from_u64(23), F::from_u64(29)];
    let mut all: Vec<F> = Vec::new();
    for (c, r) in challenges.iter().zip(&ris) {
        all.extend(compute_betas_eval(r).iter().map(|b| c.times(*b)));
    }
    all.push(F::zero());
    let eval = compute_beta_eval_poly(vec![4, 2, 1], &challenges, &ris, &point);
    assert!(eval.same(&mle_evaluate(&all, &point)));
    // the second slice of two entries
    let want = F::one().minus(point[2]).times(point[1]);
    assert!(get_offset_product(2, 2, &point).same(&want));
}
