//! Proving and verifying a convolution.
//!
//! The output is brought back to the input through a chain of sum-checks: for the clearing of the
//! output, for the inverse transform, for the products of the transforms, and for the transforms
//! of the input and of the filters. The sum-checks themselves are run outside; here stand what
//! goes into them, what is checked between them, and the claims that are left.
use crate::arith::{
    flog2, ilog2, is_pow2, lemma_div_lt, lemma_flog2, lemma_flog2_pow2, lemma_flog2_unique,
    lemma_pow2_mono,
};
use crate::claim::{Claim, ClaimView};
use crate::commit::{fbits, identity};
use crate::fft::{fft, fft_of};
use crate::field::{
    Fe, GoldilocksExt2, fint, finv, fmul, fone, fsub, fsum, fviews, fviews2, fzero,
    lemma_fviews_fe,
};
use crate::layers::convolution::Convolution;
use crate::layers::fft_conv::{ConvData, fft_filter, index_wf, laid_out, lemma_size, log_size};
use crate::layers::provable::{ProductTerm, SumcheckProof, VPAuxInfo, betas, betas_of, term_is};
use crate::layers::provable::error::{ProvableOpError, generic_err, generic_error};
use crate::mle::{mle, mle_evaluate};
use crate::ops::lemma_flat;
use crate::prime::lemma_one_minus_invertible;
use crate::quantization::{Element, fints, to_field};
use crate::tensor::TensorView;
use vstd::arithmetic::div_mod::*;
use vstd::arithmetic::mul::*;
use vstd::arithmetic::power2::*;
use vstd::prelude::*;
use vstd::slice::slice_to_vec;

verus! {

/// The proof that two vectors were multiplied entry by entry.
#[derive(Clone, Debug, Default)]
pub struct HadamardProof<S> {
    pub sumcheck: SumcheckProof<S>,
    /// The values of the two vectors at the point of the sum-check.
    pub individual_claims: Vec<GoldilocksExt2>,
}

/// The proof of a convolution.
#[derive(Clone, Debug)]
pub struct ConvProof<S> {
    /// The sum-check for the transforms of the input.
    pub fft_proof: SumcheckProof<S>,
    pub fft_proof_weights: SumcheckProof<S>,
    /// The chain of sum-checks for the matrix of the transform.
    pub fft_delegation_proof: Vec<SumcheckProof<S>>,
    pub fft_delegation_proof_weights: Vec<SumcheckProof<S>>,
    /// The same for the inverse transform.
    pub ifft_proof: SumcheckProof<S>,
    pub ifft_delegation_proof: Vec<SumcheckProof<S>>,
    /// The sum-check for the products of the transforms.
    pub hadamard_proof: SumcheckProof<S>,
    /// The claims that the sum-checks leave.
    pub fft_claims: Vec<GoldilocksExt2>,
    pub fft_weight_claims: Vec<GoldilocksExt2>,
    pub ifft_claims: Vec<GoldilocksExt2>,
    pub fft_delegation_claims: Vec<Vec<GoldilocksExt2>>,
    pub fft_delegation_weights_claims: Vec<Vec<GoldilocksExt2>>,
    pub ifft_delegation_claims: Vec<Vec<GoldilocksExt2>>,
    pub partial_evals: Vec<GoldilocksExt2>,
    pub hadamard_clams: Vec<GoldilocksExt2>,
    pub bias_claim: GoldilocksExt2,
    pub clearing_proof: HadamardProof<S>,
}

/// The claims that a convolution ends with.
#[derive(Clone, Debug)]
pub struct ConvOutcome {
    pub filter_claim: Claim<GoldilocksExt2>,
    pub bias_claim: Claim<GoldilocksExt2>,
    pub next_claim: Claim<GoldilocksExt2>,
}

/// The content of the claims that a convolution ends with.
#[verifier::ext_equal]
pub struct OutcomeView {
    pub filter: ClaimView,
    pub bias: ClaimView,
    pub next: ClaimView,
}

impl View for ConvOutcome {
    type V = OutcomeView;

    open spec fn view(&self) -> OutcomeView {
        OutcomeView {
            filter: self.filter_claim@,
            bias: self.bias_claim@,
            next: self.next_claim@,
        }
    }
}

/// The sum-checks of a proof in the order in which the verifier runs them.
pub open spec fn conv_sumchecks<S>(proof: ConvProof<S>) -> Seq<SumcheckProof<S>> {
    seq![proof.ifft_proof] + proof.ifft_delegation_proof@ + seq![
        proof.hadamard_proof,
        proof.fft_proof,
    ] + proof.fft_delegation_proof@ + seq![proof.fft_proof_weights]
        + proof.fft_delegation_proof_weights@
}

/// The references are to the given sum-checks.
pub open spec fn refers_to<S>(r: Seq<&SumcheckProof<S>>, s: Seq<SumcheckProof<S>>) -> bool {
    &&& r.len() == s.len()
    &&& forall|i: int| 0 <= i < s.len() ==> *(#[trigger] r[i]) == s[i]
}

/// Appends references to the sum-checks of a chain.
fn push_sumchecks<'a, S>(r: &mut Vec<&'a SumcheckProof<S>>, s: &'a Vec<SumcheckProof<S>>)
    ensures
        forall|before: Seq<SumcheckProof<S>>| #[trigger]
            refers_to(old(r)@, before) ==> refers_to(final(r)@, before + s@),
{
    let ghost start = r@;
    let mut i: usize = 0;
    while i < s.len()
        invariant
            i <= s@.len(),
            r@.len() == start.len() + i,
            forall|j: int| 0 <= j < start.len() ==> #[trigger] r@[j] == start[j],
            forall|j: int| 0 <= j < i ==> *(#[trigger] r@[start.len() + j]) == s@[j],
        decreases s@.len() - i,
    {
        r.push(&s[i]);
        i = i + 1;
    }
    assert forall|before: Seq<SumcheckProof<S>>| #[trigger] refers_to(start, before) implies refers_to(
        r@,
        before + s@,
    ) by {
        let all = before + s@;
        assert forall|k: int| 0 <= k < all.len() implies *(#[trigger] r@[k]) == all[k] by {
            if k >= start.len() {
                let j = k - start.len();
                assert(*r@[start.len() + j] == s@[j]);
            } else {
                assert(r@[k] == start[k]);
            }
        }
    }
}

impl<S> ConvProof<S> {
    /// The sum-checks of the proof in the order in which the verifier runs them.
    pub fn sumchecks(&self) -> (r: Vec<&SumcheckProof<S>>)
        ensures
            refers_to(r@, conv_sumchecks(*self)),
    {
        let mut r: Vec<&SumcheckProof<S>> = Vec::new();
        r.push(&self.ifft_proof);
        let ghost a = seq![self.ifft_proof];
        assert(refers_to(r@, a));
        push_sumchecks(&mut r, &self.ifft_delegation_proof);
        let ghost b = a + self.ifft_delegation_proof@;
        assert(refers_to(r@, b));
        r.push(&self.hadamard_proof);
        r.push(&self.fft_proof);
        let ghost c = b + seq![self.hadamard_proof, self.fft_proof];
        assert(refers_to(r@, c));
        push_sumchecks(&mut r, &self.fft_delegation_proof);
        let ghost d = c + self.fft_delegation_proof@;
        assert(refers_to(r@, d));
        r.push(&self.fft_proof_weights);
        let ghost e = d + seq![self.fft_proof_weights];
        assert(refers_to(r@, e));
        push_sumchecks(&mut r, &self.fft_delegation_proof_weights);
        r
    }
}

/// One sum-check that the verifier runs: the value that it starts from, and its size.
#[derive(Clone, Copy, Debug)]
pub struct SumcheckStatement {
    pub claim: GoldilocksExt2,
    pub aux: VPAuxInfo,
}

// ---------------------------------------------------------------------------------------
// Points
// ---------------------------------------------------------------------------------------

/// One minus each coordinate.
pub open spec fn complemented(s: Seq<Fe>) -> Seq<Fe> {
    Seq::new(s.len(), |i: int| fsub(fone(), s[i]))
}

/// The points of a list of sum-checks.
pub open spec fn proof_points<S>(s: Seq<SumcheckProof<S>>) -> Seq<Seq<Fe>> {
    Seq::new(s.len(), |i: int| fviews(s[i].point@))
}

/// One minus each coordinate.
pub fn complement(s: &[GoldilocksExt2]) -> (r: Vec<GoldilocksExt2>)
    ensures
        fviews(r@) == complemented(fviews(s@)),
{
    let one = GoldilocksExt2::one();
    let mut r: Vec<GoldilocksExt2> = Vec::new();
    let mut i: usize = 0;
    while i < s.len()
        invariant
            one@ == fone(),
            i <= s@.len(),
            r.len() == i,
            forall|j: int| 0 <= j < i ==> #[trigger] r[j]@ == fsub(fone(), s[j]@),
        decreases s@.len() - i,
    {
        r.push(one.minus(s[i]));
        i = i + 1;
    }
    assert(fviews(r@) =~= complemented(fviews(s@)));
    r
}

/// `a` followed by `b`.
pub fn concat_points(a: &[GoldilocksExt2], b: &[GoldilocksExt2]) -> (r: Vec<GoldilocksExt2>)
    ensures
        r@ == a@ + b@,
        fviews(r@) == fviews(a@) + fviews(b@),
{
    let mut r = slice_to_vec(a);
    let mut i: usize = 0;
    while i < b.len()
        invariant
            i <= b@.len(),
            r@ == a@ + b@.take(i as int),
        decreases b@.len() - i,
    {
        r.push(b[i]);
        assert(r@ =~= a@ + b@.take(i + 1));
        i = i + 1;
    }
    assert(b@.take(b@.len() as int) =~= b@);
    assert(fviews(a@ + b@) =~= fviews(a@) + fviews(b@));
    r
}

/// The part of `s` from `from` to before `to`.
pub fn sub_point(s: &[GoldilocksExt2], from: usize, to: usize) -> (r: &[GoldilocksExt2])
    requires
        from <= to <= s@.len(),
    ensures
        r@ == s@.subrange(from as int, to as int),
        fviews(r@) == fviews(s@).subrange(from as int, to as int),
{
    let r = vstd::slice::slice_subrange(s, from, to);
    assert(fviews(r@) =~= fviews(s@).subrange(from as int, to as int));
    r
}

pub fn points_of<S>(s: &[SumcheckProof<S>]) -> (r: Vec<Vec<GoldilocksExt2>>)
    ensures
        fviews2(r@) == proof_points(s@),
        r@.len() == s@.len(),
{
    let mut r: Vec<Vec<GoldilocksExt2>> = Vec::new();
    let mut i: usize = 0;
    while i < s.len()
        invariant
            i <= s@.len(),
            r.len() == i,
            forall|j: int| 0 <= j < i ==> fviews((#[trigger] r[j])@) == fviews(s@[j].point@),
        decreases s@.len() - i,
    {
        r.push(slice_to_vec(s[i].point.as_slice()));
        i = i + 1;
    }
    assert(fviews2(r@) =~= proof_points(s@));
    r
}

/// The claim about the input that is left of a convolution: the last coordinate of the point of
/// the transform is divided out, the others are taken from one, for the input was reversed.
pub open spec fn input_claim(
    fft_point: Seq<Fe>,
    hadamard_point: Seq<Fe>,
    fft_claim: Fe,
    log_size: int,
) -> ClaimView {
    let n = fft_point.len() - 1;
    ClaimView {
        point: complemented(fft_point.take(n)) + hadamard_point.skip(log_size),
        eval: fmul(fft_claim, finv(fsub(fone(), fft_point[n]))),
    }
}

/// The value of a filter, known by its entries, at a point of the larger square that it is laid
/// out in.
pub open spec fn laid_out_eval(partial: Seq<Fe>, real_nw: int, nw: int, point: Seq<Fe>) -> Fe {
    fsum(
        (real_nw * real_nw) as nat,
        |q: int|
            fmul(
                partial[q],
                identity(
                    fbits(
                        ((q / real_nw) * nw + q % real_nw) as nat,
                        2 * flog2(nw as nat),
                    ),
                    point,
                ),
            ),
    )
}

// ---------------------------------------------------------------------------------------
// Proving
// ---------------------------------------------------------------------------------------

/// The point at which the output of the inverse transform is evaluated: the output of a channel is
/// the first half of the transform, in reverse.
pub open spec fn transform_point(point: Seq<Fe>, log_fs: int, log_kw: int) -> Seq<Fe> {
    Seq::new(
        point.len() + 1,
        |i: int|
            if i < log_fs {
                fsub(fone(), point[i])
            } else if log_fs < i <= log_fs + log_kw {
                point[i - 1]
            } else {
                fzero()
            },
    )
}

/// The value of the bias at its part of the point.
pub open spec fn bias_value(bias: Seq<Element>, point: Seq<Fe>) -> Fe {
    if point.len() != 0 {
        mle(fints(bias), point)
    } else if bias.len() == 1 {
        fint(bias[0] as int)
    } else {
        fzero()
    }
}

/// The claims that the prover of a convolution ends with. `l` is the number of variables of a
/// transform, `hp` the point of the sum-check for the products, `r1` the part of the point for the
/// inverse transforms that belongs to the outputs, `wr` the random point for the filters, and
/// `fft` what the sum-check for the transforms of the input leaves.
pub open spec fn prover_claims(
    l: int,
    bias: ClaimView,
    hp: Seq<Fe>,
    r1: Seq<Fe>,
    partial: Seq<Fe>,
    wr: Seq<Fe>,
    fft: ClaimView,
) -> OutcomeView {
    OutcomeView {
        filter: ClaimView { point: wr + (hp + r1).skip(l), eval: mle(partial, wr) },
        bias,
        next: input_claim(fft.point, hp, fft.eval, l),
    }
}

/// What the prover of a convolution starts from.
#[derive(Clone, Debug)]
pub struct ConvStart {
    /// The point for the inverse transform.
    pub r: Vec<GoldilocksExt2>,
    pub bias_point: Vec<GoldilocksExt2>,
    pub bias_eval: GoldilocksExt2,
}

/// The filters, added up with weights over the outputs: entry `e` of channel `i`.
pub open spec fn aggregated(f: TensorView<Element>, weights: Seq<Fe>, i: int) -> Seq<Fe> {
    let k2 = f.og_shape[2] * f.og_shape[2];
    Seq::new(
        k2 as nat,
        |e: int|
            fsum(
                f.shape[0] as nat,
                |j: int|
                    fmul(weights[j], fint(f.data[(j * f.shape[1] + i) * k2 + e] as int)),
            ),
    )
}

/// The transforms of the channels of the added up filters.
pub open spec fn aggregated_fft(f: TensorView<Element>, weights: Seq<Fe>, i: int) -> Seq<Fe> {
    let n = f.shape[2] as int;
    fft_of(
        laid_out(
            aggregated(f, weights, i),
            f.og_shape[2] as int,
            n,
            (2 * (n * n)) as nat,
        ),
        log_size(f),
    )
}

/// Sequences of the same length one after the other.
pub open spec fn flattened(s: Seq<Seq<Fe>>, len: int) -> Seq<Fe> {
    Seq::new((s.len() * len) as nat, |t: int| s[t / len][t % len])
}

/// The filters, added up with weights over outputs and channels.
pub open spec fn reduced(f: TensorView<Element>, weights: Seq<Fe>) -> Seq<Fe> {
    let k2 = f.og_shape[2] * f.og_shape[2];
    Seq::new(
        k2 as nat,
        |e: int|
            fsum(
                (f.shape[0] * f.shape[1]) as nat,
                |c: int| fmul(weights[c], fint(f.data[c * k2 + e] as int)),
            ),
    )
}

/// What the sum-check for the transforms of the filters is about.
#[derive(Clone, Debug)]
pub struct WeightReduction {
    /// The part of the point for the transform.
    pub r1: Vec<GoldilocksExt2>,
    /// The filters, added up over outputs and channels.
    pub partial_evals: Vec<GoldilocksExt2>,
    /// The same, laid out in the rows of the images.
    pub laid_out: Vec<GoldilocksExt2>,
}

impl Convolution<Element> {
    /// The point for the inverse transform, and the value of the bias. Fails where the output has
    /// not the size of the filters, or where the claim's point has not the right size.
    pub fn start_proving(
        &self,
        last_claim: &Claim<GoldilocksExt2>,
        proving_data: &ConvData,
    ) -> (r: Result<ConvStart, ProvableOpError>)
        requires
            fft_filter(self.filter@),
            self.filter@.shape[0] > 0,
            self.filter@.shape[0] * (self.filter@.shape[2] * self.filter@.shape[2]) * 2
                <= usize::MAX,
            proving_data.output@.len() > 0,
            proving_data.output@.len() * proving_data.output@[0]@.len() <= usize::MAX,
            flog2(self.filter@.shape[0] as nat) > 0 ==> self.bias@.data.len() == pow2(
                flog2(self.filter@.shape[0] as nat),
            ),
        ensures
            ({
                let f = self.filter@;
                let fs = f.shape[2] * f.shape[2];
                let log_fs = flog2(fs as nat) as int;
                let log_kw = flog2(f.shape[0] as nat) as int;
                let p = last_claim@.point;
                if f.shape[0] * fs * 2 != proving_data.output@.len()
                    * proving_data.output@[0]@.len() {
                    generic_error(r, "Inconsistent output size"@)
                } else if p.len() != flog2((f.shape[0] * fs) as nat) {
                    generic_error(r, "Inconsistent random point size"@)
                } else {
                    &&& r is Ok
                    &&& fviews(r->Ok_0.r@) == transform_point(p, log_fs, log_kw)
                    &&& fviews(r->Ok_0.bias_point@) == p.subrange(log_fs, log_fs + log_kw)
                    &&& r->Ok_0.bias_eval@ == bias_value(
                        self.bias@.data,
                        p.subrange(log_fs, log_fs + log_kw),
                    )
                }
            }),
    {
        let ghost f = self.filter@;
        proof {
            lemma_size(f);
        }
        let kw = self.filter.kw();
        let fs = self.filter.filter_size();
        proof {
            assert(kw * fs <= usize::MAX && 0 < kw * fs) by (nonlinear_arith)
                requires
                    kw * fs * 2 <= usize::MAX,
                    kw > 0,
                    fs > 0,
            ;
        }
        if kw * fs * 2 != proving_data.output.len() * proving_data.output[0].len() {
            return generic_err("Inconsistent output size");
        }
        let n = last_claim.point.len();
        if n != ilog2(kw * fs) {
            return generic_err("Inconsistent random point size");
        }
        let log_fs = ilog2(fs);
        let log_kw = ilog2(kw);
        proof {
            lemma_log_product(f, kw as nat);
        }
        let ghost p = fviews(last_claim.point@);
        let one = GoldilocksExt2::one();
        let mut r: Vec<GoldilocksExt2> = Vec::new();
        let mut i: usize = 0;
        while i < n + 1
            invariant
                n == last_claim.point@.len(),
                n < usize::MAX,
                p == fviews(last_claim.point@),
                log_fs + log_kw == n,
                one@ == fone(),
                i <= n + 1,
                r.len() == i,
                forall|j: int|
                    0 <= j < i ==> #[trigger] r[j]@ == transform_point(
                        p,
                        log_fs as int,
                        log_kw as int,
                    )[j],
            decreases n + 1 - i,
        {
            let x = if i < log_fs {
                one.minus(last_claim.point[i])
            } else if log_fs < i {
                last_claim.point[i - 1]
            } else {
                GoldilocksExt2::zero()
            };
            r.push(x);
            i = i + 1;
        }
        assert(fviews(r@) =~= transform_point(p, log_fs as int, log_kw as int));
        let bias_point = sub_point(last_claim.point.as_slice(), log_fs, log_fs + log_kw);
        let bias_eval = if log_kw != 0 {
            let evals = self.bias.evals_flat();
            assert(fviews(evals@).len() == evals@.len());
            mle_evaluate(evals.as_slice(), bias_point)
        } else if self.bias.data.len() == 1 {
            to_field(self.bias.data[0])
        } else {
            GoldilocksExt2::zero()
        };
        Ok(ConvStart { r, bias_point: slice_to_vec(bias_point), bias_eval })
    }

    /// The product of polynomials whose sum over the hypercube is the claim about the product of
    /// the transforms: the transforms of the added up filters, those of the input, and the
    /// equality polynomial of the first part of the point, once for each channel.
    pub fn hadamard_term(
        &self,
        proving_data: &ConvData,
        r1: &[GoldilocksExt2],
        r2: &[GoldilocksExt2],
    ) -> (r: ProductTerm)
        requires
            fft_filter(self.filter@),
            pow2(r1@.len()) == self.filter@.shape[0],
            r2@.len() == log_size(self.filter@),
            self.filter@.shape[1] * (2 * (self.filter@.shape[2] * self.filter@.shape[2]))
                <= usize::MAX,
            proving_data.input_fft@.len() == self.filter@.shape[1],
            forall|j: int|
                0 <= j < proving_data.input_fft@.len() ==> (
                #[trigger] proving_data.input_fft@[j])@.len() == 2 * (self.filter@.shape[2]
                    * self.filter@.shape[2]),
        ensures
            ({
                let f = self.filter@;
                let n = 2 * (f.shape[2] * f.shape[2]);
                let weights = betas(fviews(r1@));
                term_is(
                    r,
                    fone(),
                    seq![
                        flattened(
                            Seq::new(
                                f.shape[1] as nat,
                                |i: int| aggregated_fft(f, weights, i),
                            ),
                            n,
                        ),
                        flattened(fviews2(proving_data.input_fft@), n),
                        flattened(
                            Seq::new(f.shape[1] as nat, |i: int| betas(fviews(r2@))),
                            n,
                        ),
                    ],
                )
            }),
    {
        let ghost f = self.filter@;
        proof {
            lemma_size(f);
        }
        let kx = self.filter.kx();
        let kw = self.filter.kw();
        let n = self.filter.nw();
        let k = self.filter.real_nw();
        let size = 2 * (n * n);
        let beta1 = betas_of(r1);
        let ghost weights = betas(fviews(r1@));
        proof {
            lemma2_to64();
            lemma_pow2_mono(r2@.len(), 31);
            assert(fviews(beta1@).len() == beta1@.len());
        }
        let beta2 = betas_of(r2);
        let mut filters: Vec<Vec<GoldilocksExt2>> = Vec::new();
        let mut beta_acc: Vec<Vec<GoldilocksExt2>> = Vec::new();
        let mut i: usize = 0;
        while i < kx
            invariant
                f == self.filter@,
                fft_filter(f),
                kx == f.shape[1],
                kw == f.shape[0],
                n == f.shape[2],
                k == f.og_shape[2],
                n > 0,
                size == 2 * (n * n),
                is_pow2(size as nat),
                flog2(size as nat) == log_size(f),
                log_size(f) <= 31,
                fviews(beta1@) == weights,
                beta1@.len() == kw,
                fviews(beta2@) == betas(fviews(r2@)),
                i <= kx,
                filters.len() == i,
                beta_acc.len() == i,
                forall|j: int|
                    0 <= j < i ==> fviews((#[trigger] filters[j])@) == aggregated_fft(
                        f,
                        weights,
                        j,
                    ),
                forall|j: int|
                    0 <= j < i ==> fviews((#[trigger] beta_acc[j])@) == betas(fviews(r2@)),
            decreases kx - i,
        {
            let agg = self.aggregate(beta1.as_slice(), i);
            proof {
                assert(fviews(agg@).len() == agg@.len());
            }
            let mut wf = index_wf(agg.as_slice(), k, n, size);
            proof {
                assert(fviews(wf@).len() == wf@.len());
            }
            fft(&mut wf, false);
            filters.push(wf);
            beta_acc.push(slice_to_vec(beta2.as_slice()));
            i = i + 1;
        }
        proof {
            assert(fviews2(filters@) =~= Seq::new(
                kx as nat,
                |i: int| aggregated_fft(f, weights, i),
            ));
            assert(fviews2(beta_acc@) =~= Seq::new(kx as nat, |i: int| betas(fviews(r2@))));
            assert forall|j: int| 0 <= j < kx implies (#[trigger] filters@[j])@.len() == size by {
                assert(fviews(filters[j]@) == aggregated_fft(f, weights, j));
                assert(fviews(filters[j]@).len() == filters[j]@.len());
            }
            assert forall|j: int| 0 <= j < kx implies (#[trigger] beta_acc@[j])@.len() == size by {
                assert(fviews(beta_acc[j]@) == betas(fviews(r2@)));
                assert(fviews(beta_acc[j]@).len() == beta_acc[j]@.len());
            }
        }
        let f1 = flatten_columns(&filters, size);
        let f2 = flatten_columns(&proving_data.input_fft, size);
        let f3 = flatten_columns(&beta_acc, size);
        let ghost want = seq![fviews(f1@), fviews(f2@), fviews(f3@)];
        let mut factors: Vec<Vec<GoldilocksExt2>> = Vec::new();
        factors.push(f1);
        factors.push(f2);
        factors.push(f3);
        assert(fviews2(factors@) =~= want);
        ProductTerm { coefficient: GoldilocksExt2::one(), factors }
    }

    /// The entries of channel `i` of the filters, added up over the outputs.
    fn aggregate(&self, weights: &[GoldilocksExt2], i: usize) -> (r: Vec<GoldilocksExt2>)
        requires
            fft_filter(self.filter@),
            weights@.len() == self.filter@.shape[0],
            i < self.filter@.shape[1],
        ensures
            fviews(r@) == aggregated(self.filter@, fviews(weights@), i as int),
    {
        let ghost f = self.filter@;
        proof {
            lemma_size(f);
            lemma_mul_upper_bound(
                f.og_shape[2] as int,
                f.shape[2] as int,
                f.og_shape[2] as int,
                f.shape[2] as int,
            );
        }
        let kx = self.filter.kx();
        let kw = self.filter.kw();
        let k = self.filter.real_nw();
        let k2 = k * k;
        let dlen = self.filter.data.len();
        let ghost w = fviews(weights@);
        let mut r: Vec<GoldilocksExt2> = Vec::new();
        let mut e: usize = 0;
        while e < k2
            invariant
                f == self.filter@,
                fft_filter(f),
                kx == f.shape[1],
                kw == f.shape[0],
                k2 == f.og_shape[2] * f.og_shape[2],
                dlen == f.data.len(),
                i < kx,
                weights@.len() == kw,
                w == fviews(weights@),
                e <= k2,
                r.len() == e,
                forall|s: int|
                    0 <= s < e ==> #[trigger] r[s]@ == aggregated(f, w, i as int)[s],
            decreases k2 - e,
        {
            let mut acc = GoldilocksExt2::zero();
            let mut j: usize = 0;
            let ghost g = |j: int|
                fmul(w[j], fint(f.data[(j * f.shape[1] + i) * k2 + e] as int));
            while j < kw
                invariant
                    f == self.filter@,
                    fft_filter(f),
                    kx == f.shape[1],
                    kw == f.shape[0],
                    k2 == f.og_shape[2] * f.og_shape[2],
                    dlen == f.data.len(),
                    i < kx,
                    e < k2,
                    weights@.len() == kw,
                    w == fviews(weights@),
                    g == (|j: int|
                        fmul(w[j], fint(f.data[(j * f.shape[1] + i) * k2 + e] as int))),
                    j <= kw,
                    acc@ == fsum(j as nat, g),
                decreases kw - j,
            {
                proof {
                    lemma_filter_place(f, j as int, i as int, e as int);
                }
                let v = to_field(self.filter.data[(j * kx + i) * k2 + e]);
                acc = acc.plus(weights[j].times(v));
                j = j + 1;
            }
            r.push(acc);
            e = e + 1;
        }
        assert(fviews(r@) =~= aggregated(f, w, i as int));
        r
    }

    /// The filters, added up over outputs and channels with the equality polynomial of the second
    /// part of the point, as they are and laid out in the rows of the images.
    pub fn reduce_weights(&self, r: &[GoldilocksExt2]) -> (res: WeightReduction)
        requires
            fft_filter(self.filter@),
            r@.len() >= log_size(self.filter@),
            pow2((r@.len() - log_size(self.filter@)) as nat) == self.filter@.shape[0]
                * self.filter@.shape[1],
            self.filter@.shape[0] * self.filter@.shape[1] <= usize::MAX,
        ensures
            ({
                let f = self.filter@;
                let l = log_size(f) as int;
                let n = f.shape[2] as int;
                let partial = reduced(f, betas(fviews(r@).skip(l)));
                &&& fviews(res.r1@) == fviews(r@).take(l)
                &&& fviews(res.partial_evals@) == partial
                &&& fviews(res.laid_out@) == laid_out(
                    partial,
                    f.og_shape[2] as int,
                    n,
                    (2 * (n * n)) as nat,
                )
            }),
    {
        let ghost f = self.filter@;
        proof {
            lemma_size(f);
            lemma_mul_upper_bound(
                f.og_shape[2] as int,
                f.shape[2] as int,
                f.og_shape[2] as int,
                f.shape[2] as int,
            );
        }
        let n = self.filter.nw();
        let k = self.filter.real_nw();
        let kw = self.filter.kw();
        let kx = self.filter.kx();
        let padded_rows = 2 * (n * n);
        let l = ilog2(padded_rows);
        let r1 = sub_point(r, 0, l);
        let r2 = sub_point(r, l, r.len());
        assert(fviews(r@).subrange(l as int, r@.len() as int) =~= fviews(r@).skip(l as int));
        assert(fviews(r@).subrange(0, l as int) =~= fviews(r@).take(l as int));
        let beta = betas_of(r2);
        let ghost w = betas(fviews(r2@));
        proof {
            assert(fviews(beta@).len() == beta@.len());
        }
        let k2 = k * k;
        let total = kw * kx;
        let dlen = self.filter.data.len();
        let mut partial: Vec<GoldilocksExt2> = Vec::new();
        let mut e: usize = 0;
        while e < k2
            invariant
                f == self.filter@,
                fft_filter(f),
                total == f.shape[0] * f.shape[1],
                k2 == f.og_shape[2] * f.og_shape[2],
                dlen == f.data.len(),
                beta@.len() == total,
                fviews(beta@) == w,
                e <= k2,
                partial.len() == e,
                forall|s: int| 0 <= s < e ==> #[trigger] partial[s]@ == reduced(f, w)[s],
            decreases k2 - e,
        {
            let mut acc = GoldilocksExt2::zero();
            let mut c: usize = 0;
            let ghost g = |c: int| fmul(w[c], fint(f.data[c * k2 + e] as int));
            while c < total
                invariant
                    f == self.filter@,
                    fft_filter(f),
                    total == f.shape[0] * f.shape[1],
                    k2 == f.og_shape[2] * f.og_shape[2],
                    dlen == f.data.len(),
                    beta@.len() == total,
                    fviews(beta@) == w,
                    e < k2,
                    g == (|c: int| fmul(w[c], fint(f.data[c * k2 + e] as int))),
                    c <= total,
                    acc@ == fsum(c as nat, g),
                decreases total - c,
            {
                proof {
                    lemma_flat(c as int, e as int, total as int, k2 as int);
                    lemma_mul_is_associative(
                        f.shape[0] as int,
                        f.shape[1] as int,
                        k2 as int,
                    );
                }
                let v = to_field(self.filter.data[c * k2 + e]);
                assert(beta@[c as int]@ == w[c as int]);
                acc = acc.plus(beta[c].times(v));
                c = c + 1;
            }
            partial.push(acc);
            e = e + 1;
        }
        assert(fviews(partial@) =~= reduced(f, w));
        assert(fviews(partial@).len() == partial@.len());
        let laid = index_wf(partial.as_slice(), k, n, padded_rows);
        WeightReduction { r1: slice_to_vec(r1), partial_evals: partial, laid_out: laid }
    }

    /// The claims that are left at the end of the proof: about the filters, about the bias, and
    /// about the input.
    pub fn finish_proving(
        &self,
        start: &ConvStart,
        hadamard_point: &[GoldilocksExt2],
        r1: &[GoldilocksExt2],
        partial_evals: &[GoldilocksExt2],
        weights_rand: &[GoldilocksExt2],
        fft_point: &[GoldilocksExt2],
        fft_claim: GoldilocksExt2,
    ) -> (r: ConvOutcome)
        requires
            fft_filter(self.filter@),
            hadamard_point@.len() >= log_size(self.filter@),
            partial_evals@.len() == pow2(weights_rand@.len()),
            fft_point@.len() > 0,
            fviews(fft_point@).last() != fone(),
        ensures
            r@ == prover_claims(
                log_size(self.filter@) as int,
                ClaimView { point: fviews(start.bias_point@), eval: start.bias_eval@ },
                fviews(hadamard_point@),
                fviews(r1@),
                fviews(partial_evals@),
                fviews(weights_rand@),
                ClaimView { point: fviews(fft_point@), eval: fft_claim@ },
            ),
    {
        proof {
            lemma_size(self.filter@);
        }
        let n = self.filter.nw();
        let l = ilog2(2 * (n * n));
        let point = concat_points(hadamard_point, r1);
        assert(fviews(point@).len() == point@.len());
        let tail = sub_point(point.as_slice(), l, point.len());
        assert(fviews(point@).subrange(l as int, point@.len() as int) =~= fviews(point@).skip(
            l as int,
        ));
        let filter_claim = Claim::new(
            concat_points(weights_rand, tail),
            mle_evaluate(partial_evals, weights_rand),
        );
        let bias_claim = Claim::new(
            slice_to_vec(start.bias_point.as_slice()),
            start.bias_eval,
        );
        let next_claim = match left_claim(fft_point, hadamard_point, fft_claim, l) {
            Some(c) => c,
            None => Claim::new(Vec::new(), fft_claim),
        };
        ConvOutcome { filter_claim, bias_claim, next_claim }
    }
}

/// The claim about the input that is left of a convolution, where it can be told.
pub fn left_claim(
    fft_point: &[GoldilocksExt2],
    hadamard_point: &[GoldilocksExt2],
    fft_claim: GoldilocksExt2,
    l: usize,
) -> (r: Option<Claim<GoldilocksExt2>>)
    requires
        l <= hadamard_point@.len(),
    ensures
        r is Some <==> fft_point@.len() > 0 && fviews(fft_point@).last() != fone(),
        r is Some ==> r->0@ == input_claim(
            fviews(fft_point@),
            fviews(hadamard_point@),
            fft_claim@,
            l as int,
        ),
{
    if fft_point.len() == 0 {
        return None;
    }
    let m = fft_point.len() - 1;
    let last = GoldilocksExt2::one().minus(fft_point[m]);
    proof {
        lemma_fviews_fe(fft_point@);
        lemma_one_minus_invertible(fviews(fft_point@).last());
    }
    let v = match last.invert() {
        Some(v) => v,
        None => {
            return None;
        },
    };
    let head = sub_point(fft_point, 0, m);
    let tail = sub_point(hadamard_point, l, hadamard_point.len());
    proof {
        assert(fviews(fft_point@).subrange(0, m as int) =~= fviews(fft_point@).take(m as int));
        assert(fviews(hadamard_point@).subrange(l as int, hadamard_point@.len() as int) =~= fviews(
            hadamard_point@,
        ).skip(l as int));
    }
    let input_point = complement(head);
    Some(Claim::new(concat_points(input_point.as_slice(), tail), fft_claim.times(v)))
}

/// Sequences of the same length one after the other.
fn flatten_columns(s: &Vec<Vec<GoldilocksExt2>>, len: usize) -> (r: Vec<GoldilocksExt2>)
    requires
        len > 0,
        s@.len() * len <= usize::MAX,
        forall|j: int| 0 <= j < s@.len() ==> (#[trigger] s@[j])@.len() == len,
    ensures
        fviews(r@) == flattened(fviews2(s@), len as int),
{
    let n = s.len();
    let total = n * len;
    let mut r: Vec<GoldilocksExt2> = Vec::new();
    let mut t: usize = 0;
    while t < total
        invariant
            n == s@.len(),
            total == n * len,
            len > 0,
            forall|j: int| 0 <= j < s@.len() ==> (#[trigger] s@[j])@.len() == len,
            t <= total,
            r.len() == t,
            forall|q: int|
                0 <= q < t ==> #[trigger] r[q]@ == flattened(fviews2(s@), len as int)[q],
        decreases total - t,
    {
        proof {
            lemma_div_lt(t as nat, len as nat, n as nat);
            assert(s@[t as int / len as int]@.len() == len);
        }
        r.push(s[t / len][t % len]);
        t = t + 1;
    }
    assert(fviews(r@) =~= flattened(fviews2(s@), len as int));
    r
}

proof fn lemma_filter_place(f: TensorView<Element>, j: int, i: int, e: int)
    requires
        fft_filter(f),
        0 <= j < f.shape[0],
        0 <= i < f.shape[1],
        0 <= e < f.og_shape[2] * f.og_shape[2],
    ensures
        ({
            let k2 = f.og_shape[2] * f.og_shape[2];
            &&& 0 <= j * f.shape[1]
            &&& 0 <= j * f.shape[1] + i <= (j * f.shape[1] + i) * k2
            &&& 0 <= (j * f.shape[1] + i) * k2 + e < f.data.len()
        }),
{
    let k2 = f.og_shape[2] * f.og_shape[2];
    lemma_flat(j, i, f.shape[0] as int, f.shape[1] as int);
    lemma_flat(j * f.shape[1] + i, e, f.shape[0] * f.shape[1], k2);
    lemma_mul_is_associative(f.shape[0] as int, f.shape[1] as int, k2);
    let a = j * f.shape[1] + i;
    assert(a <= a * k2) by (nonlinear_arith)
        requires
            a >= 0,
            k2 >= 1,
    ;
}

/// The logarithm of the product of a number with a power of two.
pub proof fn lemma_log_product(f: TensorView<Element>, kw: nat)
    requires
        fft_filter(f),
        kw > 0,
    ensures
        flog2((kw * (f.shape[2] * f.shape[2])) as nat) == flog2(
            (f.shape[2] * f.shape[2]) as nat,
        ) + flog2(kw),
{
    let n = f.shape[2] as nat;
    let e = choose|e: nat| n == #[trigger] pow2(e);
    lemma_pow2_adds(e, e);
    lemma_flog2_pow2(e + e);
    let b = flog2(kw);
    lemma_flog2(kw);
    lemma_pow2_adds(b, e + e);
    lemma_pow2_adds(b + 1, e + e);
    let fs = pow2(e + e);
    lemma_pow2_pos(e + e);
    assert(pow2(b) * fs <= kw * fs < pow2(b + 1) * fs) by (nonlinear_arith)
        requires
            pow2(b) <= kw < pow2(b + 1),
            fs > 0,
    ;
    lemma_flog2_unique(kw * fs, b + (e + e));
}

} // verus!
