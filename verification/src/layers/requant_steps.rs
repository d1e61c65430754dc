//! Proving and verifying a requantisation: the sum-check that brings the claims of the two lookup
//! arguments, and the claim about the output, to one point.
use crate::claim::{Claim, ClaimView, cviews};
use crate::commit::{beta, identity, identity_eval};
use crate::field::{
    Fe, GoldilocksExt2, fint, fmul, fone, fpow, fprod, fsum, fviews, fviews2, fzero,
    lemma_fe_closed, lemma_fmul_assoc, lemma_fmul_comm, lemma_fmul_one, lemma_fsum_eq,
    lemma_fsum_scale, lemma_fviews_push,
};
use crate::iop::{ChallengeStorage, find_challenge};
use crate::iop::context::{ContextAux, copy_shapes, with_table};
use crate::layers::activation::{common_vars, lookup_shapes_ok, same_vars, shape_vars};
use crate::layers::provable::{
    LayerOut, NodeId, PaddingMode, PolyID, ProductTerm, SubClaim, VPAuxInfo, betas, betas_of,
    power_combination, rlc, single_output, term_at, term_is,
};
use crate::layers::provable::error::{
    ProvableOpError, generic_err, generic_error, parameter_err, parameter_error,
};
use crate::layers::requant::{Requant, RequantCtx, RequantOutcome, requant_out};
use crate::lookup::context::TableType;
use crate::mle::mle;
use crate::quantization::{BIT_LEN, Element};
use crate::shape::shapes;
use crate::tensor::{Tensor, TensorView};
use crate::text::{append_decimal, append_field, decimal, fe_text};
use vstd::arithmetic::power2::*;
use vstd::prelude::*;
use vstd::slice::slice_to_vec;
use vstd::string::*;

verus! {

/// The values that the verifier adds up before the sum-check.
pub open spec fn initial_values(
    last_eval: Fe,
    clamping_evals: Seq<Fe>,
    shifted_evals: Seq<Fe>,
) -> Seq<Fe> {
    seq![last_eval, clamping_evals[1], clamping_evals[0]] + shifted_evals
}

/// The values that the verifier adds up after the sum-check: those that the prover sent, each
/// times the equality polynomial of its claim.
pub open spec fn final_values(
    last_beta: Fe,
    clamping_beta: Fe,
    shifted_beta: Fe,
    evals: Seq<Fe>,
) -> Seq<Fe> {
    seq![
        fmul(last_beta, evals[1]),
        fmul(clamping_beta, evals[1]),
        fmul(clamping_beta, evals[0]),
    ] + Seq::new((evals.len() - 2) as nat, |j: int| fmul(shifted_beta, evals[2 + j]))
}

/// The summands of the polynomial that the sum-check of a requantisation is about.
pub open spec fn accumulation(
    last_point: Seq<Fe>,
    clamping_point: Seq<Fe>,
    shifted_point: Seq<Fe>,
    clamping: Seq<Seq<Fe>>,
    shifted: Seq<Seq<Fe>>,
) -> Seq<Seq<Seq<Fe>>> {
    seq![
        seq![clamping[1], betas(last_point)],
        seq![clamping[1], betas(clamping_point)],
        seq![clamping[0], betas(clamping_point)],
    ] + Seq::new(shifted.len(), |j: int| seq![betas(shifted_point), shifted[j]])
}

/// What the set-up of a requantisation gives.
pub open spec fn requant_step_is(
    q: Requant,
    id: NodeId,
    aux: ContextAux,
    ctx: RequantCtx,
    out: ContextAux,
) -> bool {
    &&& ctx.requant == q
    &&& ctx.node_id == id
    &&& ctx.num_vars == shape_vars(aux.last_output_shape@[0]@)
    &&& out.tables@ == with_table(
        with_table(aux.tables@, TableType::Range),
        TableType::Clamping(q.clamping_bits() as usize),
    )
    &&& out.last_output_shape == aux.last_output_shape
    &&& out.model_polys@.len() == 0
}

/// The claims that the values of the columns at `point` make, one for each commitment.
pub open spec fn claims_at(point: Seq<Fe>, evals: Seq<Fe>) -> Seq<ClaimView> {
    Seq::new(evals.len(), |i: int| ClaimView { point, eval: evals[i] })
}

/// The message on a claim that is not what the sum-check expects.
pub open spec fn claim_message(calculated: Fe, expected: Fe) -> Seq<char> {
    "The calculated claim did not line up with the expected claim, calculated: "@ + fe_text(
        calculated,
    ) + ", expected: "@ + fe_text(expected)
}

fn claim_text(calculated: GoldilocksExt2, expected: GoldilocksExt2) -> (s: String)
    ensures
        s@ == claim_message(calculated@, expected@),
{
    let mut s = String::from_str(
        "The calculated claim did not line up with the expected claim, calculated: ",
    );
    append_field(&mut s, calculated);
    s.append(", expected: ");
    append_field(&mut s, expected);
    s
}

/// What a requantisation ends with.
pub open spec fn outcome_is(r: Requant, o: RequantOutcome, point: Seq<Fe>, evals: Seq<Fe>) -> bool {
    &&& fviews(o.accumulation_evals@) == evals
    &&& cviews(o.witness_claims@) == claims_at(point, evals)
    &&& o.next_claim@ == (ClaimView {
        point,
        eval: r.recombined(evals[0], evals.skip(2)),
    })
}

/// The sum over the hypercube of the polynomial of the sum-check is what the verifier adds up
/// from the claims, where these are true: the honest prover's sum-check starts from the right
/// value.
pub proof fn law_accumulation_sum(
    last_point: Seq<Fe>,
    clamping_point: Seq<Fe>,
    shifted_point: Seq<Fe>,
    clamping: Seq<Seq<Fe>>,
    shifted: Seq<Seq<Fe>>,
    c: Fe,
    n: nat,
)
    requires
        last_point.len() == n,
        clamping_point.len() == n,
        shifted_point.len() == n,
        clamping.len() == 2,
    ensures
        ({
            let terms = accumulation(
                last_point,
                clamping_point,
                shifted_point,
                clamping,
                shifted,
            );
            fsum(
                terms.len(),
                |i: int| fsum(pow2(n), |k: int| term_at(fpow(c, i as nat), terms[i], k)),
            ) == rlc(
                initial_values(
                    mle(clamping[1], last_point),
                    seq![mle(clamping[0], clamping_point), mle(clamping[1], clamping_point)],
                    Seq::new(shifted.len(), |j: int| mle(shifted[j], shifted_point)),
                ),
                c,
            )
        }),
{
    let terms = accumulation(last_point, clamping_point, shifted_point, clamping, shifted);
    let values = initial_values(
        mle(clamping[1], last_point),
        seq![mle(clamping[0], clamping_point), mle(clamping[1], clamping_point)],
        Seq::new(shifted.len(), |j: int| mle(shifted[j], shifted_point)),
    );
    let f = |i: int| fsum(pow2(n), |k: int| term_at(fpow(c, i as nat), terms[i], k));
    let g = |i: int| fmul(fpow(c, i as nat), values[i]);
    assert forall|i: int| 0 <= i < terms.len() implies #[trigger] f(i) == g(i) by {
        let w = fpow(c, i as nat);
        if i == 0 {
            lemma_two_factors(w, clamping[1], last_point, false);
        } else if i == 1 {
            lemma_two_factors(w, clamping[1], clamping_point, false);
        } else if i == 2 {
            lemma_two_factors(w, clamping[0], clamping_point, false);
        } else {
            lemma_two_factors(w, shifted[i - 3], shifted_point, true);
        }
    }
    lemma_fsum_eq(terms.len(), f, g);
    assert(terms.len() == values.len());
}

/// The sum over the hypercube of a column times the values of `beta` is the extension of the
/// column.
proof fn lemma_two_factors(w: Fe, column: Seq<Fe>, point: Seq<Fe>, beta_first: bool)
    ensures
        ({
            let factors = if beta_first {
                seq![betas(point), column]
            } else {
                seq![column, betas(point)]
            };
            fsum(pow2(point.len()), |k: int| term_at(w, factors, k)) == fmul(w, mle(column, point))
        }),
{
    let factors = if beta_first {
        seq![betas(point), column]
    } else {
        seq![column, betas(point)]
    };
    let n = pow2(point.len());
    let e = |k: int| fmul(column[k], beta(point, k as nat));
    let a = |k: int| term_at(w, factors, k);
    let b = |k: int| fmul(w, e(k));
    assert forall|k: int| 0 <= k < n implies #[trigger] a(k) == b(k) by {
        let p = |i: int| factors[i][k];
        reveal_with_fuel(fprod, 3);
        lemma_fmul_assoc(fone(), p(0), p(1));
        lemma_fe_closed(p(0), p(1));
        lemma_fmul_one(fmul(p(0), p(1)));
        lemma_fmul_comm(p(0), p(1));
    }
    lemma_fsum_eq(n, a, b);
    lemma_fsum_scale(n, w, e);
}

impl Requant {
    /// Checks the number of lookup witnesses of a requantisation node.
    pub fn check_witnesses(id: NodeId, count: usize) -> (r: Result<(), ProvableOpError>)
        ensures
            count == 2 ==> r is Ok,
            count != 2 ==> generic_error(
                r,
                "There should be two lookup witnesses during requantisation, node: "@ + decimal(
                    id as nat,
                ) + ", number of witnesses: "@ + decimal(count as nat),
            ),
    {
        if count == 2 {
            return Ok(());
        }
        let mut m = String::from_str(
            "There should be two lookup witnesses during requantisation, node: ",
        );
        append_decimal(&mut m, id);
        m.append(", number of witnesses: ");
        append_decimal(&mut m, count);
        generic_err(m.as_str())
    }

    /// The summands of the polynomial that the sum-check is about: the output column for the claim
    /// about the output and for that of the lookup, the input column, and the chunks, with the
    /// powers of the challenge as coefficients. Fails where the clamping lookup has not two
    /// columns.
    pub fn accumulation_terms(
        last_point: &[GoldilocksExt2],
        clamping_point: &[GoldilocksExt2],
        shifted_point: &[GoldilocksExt2],
        clamping: &Vec<Vec<GoldilocksExt2>>,
        shifted: &Vec<Vec<GoldilocksExt2>>,
        batching_challenge: GoldilocksExt2,
    ) -> (r: Result<Vec<ProductTerm>, ProvableOpError>)
        requires
            pow2(last_point@.len()) <= usize::MAX,
            pow2(clamping_point@.len()) <= usize::MAX,
            pow2(shifted_point@.len()) <= usize::MAX,
        ensures
            clamping@.len() != 2 ==> generic_error(
                r,
                "Clamping logup proofs should only have two output evaluations, got: "@ + decimal(
                    clamping@.len(),
                ),
            ),
            clamping@.len() == 2 ==> {
                let terms = accumulation(
                    fviews(last_point@),
                    fviews(clamping_point@),
                    fviews(shifted_point@),
                    fviews2(clamping@),
                    fviews2(shifted@),
                );
                &&& r is Ok
                &&& r->Ok_0@.len() == terms.len()
                &&& forall|i: int|
                    0 <= i < terms.len() ==> term_is(
                        #[trigger] r->Ok_0@[i],
                        fpow(batching_challenge@, i as nat),
                        terms[i],
                    )
            },
    {
        if clamping.len() != 2 {
            let mut m = String::from_str(
                "Clamping logup proofs should only have two output evaluations, got: ",
            );
            append_decimal(&mut m, clamping.len());
            return generic_err(m.as_str());
        }
        let last_betas = betas_of(last_point);
        let clamping_betas = betas_of(clamping_point);
        let shifted_betas = betas_of(shifted_point);
        let ghost terms = accumulation(
            fviews(last_point@),
            fviews(clamping_point@),
            fviews(shifted_point@),
            fviews2(clamping@),
            fviews2(shifted@),
        );
        let ghost c = batching_challenge@;
        let mut out: Vec<ProductTerm> = Vec::new();
        let mut power = GoldilocksExt2::one();
        out.push(pair_term(power, clamping[1].as_slice(), last_betas.as_slice()));
        power = power.times(batching_challenge);
        out.push(pair_term(power, clamping[1].as_slice(), clamping_betas.as_slice()));
        power = power.times(batching_challenge);
        out.push(pair_term(power, clamping[0].as_slice(), clamping_betas.as_slice()));
        power = power.times(batching_challenge);
        proof {
            assert(fpow(c, 0) == fone());
            assert(fpow(c, 1) == fmul(fpow(c, 0), c));
            assert(fpow(c, 2) == fmul(fpow(c, 1), c));
            assert(fpow(c, 3) == fmul(fpow(c, 2), c));
        }
        let mut j: usize = 0;
        while j < shifted.len()
            invariant
                j <= shifted@.len(),
                out.len() == 3 + j,
                terms.len() == 3 + shifted@.len(),
                fviews(shifted_betas@) == betas(fviews(shifted_point@)),
                forall|i: int|
                    3 <= i < terms.len() ==> #[trigger] terms[i] == seq![
                        betas(fviews(shifted_point@)),
                        fviews2(shifted@)[i - 3],
                    ],
                c == batching_challenge@,
                power@ == fpow(c, (3 + j) as nat),
                forall|i: int|
                    0 <= i < out.len() ==> term_is(
                        #[trigger] out@[i],
                        fpow(c, i as nat),
                        terms[i],
                    ),
            decreases shifted@.len() - j,
        {
            let t = pair_term(power, shifted_betas.as_slice(), shifted[j].as_slice());
            assert(terms[3 + j] == seq![
                betas(fviews(shifted_point@)),
                fviews2(shifted@)[j as int],
            ]);
            out.push(t);
            power = power.times(batching_challenge);
            j = j + 1;
        }
        Ok(out)
    }

    /// What the prover keeps of the sum-check. `final_evals` holds the values at `point` of the
    /// polynomials of the sum-check in the order in which they were first used: output column, the
    /// `beta` of the claim about the output, that of the clamping lookup, input column, the
    /// `beta` of the chunks, chunks.
    pub fn finish_proving(&self, point: &[GoldilocksExt2], final_evals: &[GoldilocksExt2]) -> (r:
        RequantOutcome)
        requires
            1 <= self.total_shift() <= 63,
            fint(self.fixed_point_multiplier as int) != fzero(),
            final_evals@.len() >= 5,
        ensures
            ({
                let f = fviews(final_evals@);
                outcome_is(*self, r, fviews(point@), seq![f[3], f[0]] + f.skip(5))
            }),
    {
        let mut evals: Vec<GoldilocksExt2> = Vec::new();
        evals.push(final_evals[3]);
        evals.push(final_evals[0]);
        let ghost f = fviews(final_evals@);
        let mut i: usize = 5;
        while i < final_evals.len()
            invariant
                5 <= i <= final_evals@.len(),
                f == fviews(final_evals@),
                fviews(evals@) == seq![f[3], f[0]] + f.subrange(5, i as int),
            decreases final_evals@.len() - i,
        {
            proof {
                lemma_fviews_push(evals@, final_evals@[i as int]);
            }
            evals.push(final_evals[i]);
            assert(fviews(evals@) =~= seq![f[3], f[0]] + f.subrange(5, i + 1));
            i = i + 1;
        }
        assert(f.subrange(5, f.len() as int) =~= f.skip(5));
        self.outcome(point, evals)
    }

    /// The claims that the values of the columns make at `point`.
    fn outcome(&self, point: &[GoldilocksExt2], evals: Vec<GoldilocksExt2>) -> (r: RequantOutcome)
        requires
            1 <= self.total_shift() <= 63,
            fint(self.fixed_point_multiplier as int) != fzero(),
            evals@.len() >= 2,
        ensures
            outcome_is(*self, r, fviews(point@), fviews(evals@)),
    {
        let rest = vstd::slice::slice_subrange(evals.as_slice(), 2, evals.len());
        assert(fviews(rest@) =~= fviews(evals@).skip(2));
        let next = self.recombine_claims(evals[0], rest);
        let mut claims: Vec<Claim<GoldilocksExt2>> = Vec::new();
        let mut i: usize = 0;
        while i < evals.len()
            invariant
                i <= evals@.len(),
                claims.len() == i,
                forall|j: int|
                    0 <= j < i ==> #[trigger] claims@[j]@ == claims_at(
                        fviews(point@),
                        fviews(evals@),
                    )[j],
            decreases evals@.len() - i,
        {
            claims.push(Claim::new(slice_to_vec(point), evals[i]));
            i = i + 1;
        }
        assert(cviews(claims@) =~= claims_at(fviews(point@), fviews(evals@)));
        RequantOutcome {
            accumulation_evals: evals,
            witness_claims: claims,
            next_claim: Claim::new(slice_to_vec(point), next),
        }
    }
}

impl Requant {
    /// A requantisation has as many outputs as inputs.
    pub fn num_outputs(&self, num_inputs: usize) -> (r: usize)
        ensures
            r == num_inputs,
    {
        num_inputs
    }

    /// The shapes of the outputs: those of the inputs.
    pub fn output_shapes(&self, input_shapes: &[Vec<usize>], _padding_mode: PaddingMode) -> (r: Vec<
        Vec<usize>,
    >)
        ensures
            shapes(r@) == shapes(input_shapes@),
    {
        copy_shapes(input_shapes)
    }

    pub fn is_provable(&self) -> (r: bool)
        ensures
            r,
    {
        true
    }

    /// Describes the layer; `scale` is the scaling factor in decimal notation.
    pub fn describe(&self, scale: &str) -> (r: String)
        requires
            self.total_shift() <= usize::MAX,
        ensures
            r@ == "Requant: right shift: "@ + decimal(self.total_shift()) + ", scale: "@ + scale@,
    {
        let mut s = String::from_str("Requant: right shift: ");
        append_decimal(&mut s, self.shift());
        s.append(", scale: ");
        s.append(scale);
        s
    }

    /// The requantisation of a tensor can be computed.
    pub open spec fn ready(self, x: TensorView<Element>) -> bool {
        &&& x.plain()
        &&& 1 <= self.total_shift() <= 127
    }

    /// What is added up for each entry of a tensor can be held.
    pub open spec fn holds_all(self, x: TensorView<Element>) -> bool {
        forall|i: int| 0 <= i < x.data.len() ==> self.holds(#[trigger] x.data[i] as int)
    }

    /// Runs the layer on its input. Fails where there is not one input, where the shift is out of
    /// range, or where what is added up cannot be held.
    pub fn evaluate(&self, inputs: &[&Tensor<Element>]) -> (r: Result<
        LayerOut<Element>,
        ProvableOpError,
    >)
        ensures
            inputs@.len() != 1 ==> parameter_error(r, "Requant layer expects one input"@),
            inputs@.len() == 1 ==> {
                let x = inputs@[0]@;
                if !self.ready(x) {
                    generic_error(r, "The input cannot be requantised"@)
                } else if !self.holds_all(x) {
                    generic_error(r, "A value to requantise is out of range"@)
                } else {
                    r is Ok && r->Ok_0.single(requant_out(*self, x)) && r->Ok_0.proving_data is None
                }
            },
    {
        if inputs.len() != 1 {
            return parameter_err("Requant layer expects one input");
        }
        let input = inputs[0];
        let in_range = match self.fp_scale.checked_add(self.right_shift) {
            Some(s) => 1 <= s && s <= 127,
            None => false,
        };
        if !input.is_plain() || !in_range {
            return generic_err("The input cannot be requantised");
        }
        let mut i: usize = 0;
        while i < input.data.len()
            invariant
                inputs@.len() == 1,
                input@ == inputs@[0]@,
                self.ready(input@),
                i <= input.data.len(),
                forall|j: int| 0 <= j < i ==> self.holds(#[trigger] input@.data[j] as int),
            decreases input.data.len() - i,
        {
            if !self.can_apply(input.data[i]) {
                assert(!self.holds(input@.data[i as int] as int));
                return generic_err("A value to requantise is out of range");
            }
            i = i + 1;
        }
        Ok(single_output(self.op(input)))
    }

    /// Sets up the layer. Fails where the input shapes differ in their numbers of variables.
    pub fn step_info(&self, id: PolyID, aux: ContextAux) -> (r: Result<
        (RequantCtx, ContextAux),
        ProvableOpError,
    >)
        requires
            self.clamping_ok(),
            lookup_shapes_ok(aux.last_output_shape@),
        ensures
            !same_vars(aux.last_output_shape@) ==> generic_error(
                r,
                "All input shapes for requant layer must have the same number of variables"@,
            ),
            same_vars(aux.last_output_shape@) ==> r is Ok && requant_step_is(
                *self,
                id,
                aux,
                (r->Ok_0).0,
                (r->Ok_0).1,
            ),
    {
        let mut aux = aux;
        aux.insert_table(TableType::Range);
        aux.insert_table(TableType::Clamping(self.clamping_size()));
        let num_vars = match common_vars(aux.last_output_shape.as_slice()) {
            Some(n) => n,
            None => {
                return generic_err(
                    "All input shapes for requant layer must have the same number of variables",
                );
            },
        };
        proof {
            assert(shape_vars(shapes(aux.last_output_shape@)[0]) == num_vars);
        }
        let out = ContextAux {
            tables: aux.tables,
            last_output_shape: aux.last_output_shape,
            model_polys: Vec::new(),
        };
        Ok((RequantCtx { requant: *self, node_id: id, num_vars }, out))
    }
}

/// A product of two polynomials with a coefficient.
pub fn pair_term(coefficient: GoldilocksExt2, a: &[GoldilocksExt2], b: &[GoldilocksExt2]) -> (r:
    ProductTerm)
    ensures
        term_is(r, coefficient@, seq![fviews(a@), fviews(b@)]),
{
    let mut factors: Vec<Vec<GoldilocksExt2>> = Vec::new();
    factors.push(slice_to_vec(a));
    factors.push(slice_to_vec(b));
    assert(fviews2(factors@) =~= seq![fviews(a@), fviews(b@)]);
    ProductTerm { coefficient, factors }
}

impl RequantCtx {
    /// The challenges of the clamping table. Fails where it has none.
    pub fn challenges(&self, storage: &ChallengeStorage) -> (r: Result<
        (GoldilocksExt2, GoldilocksExt2),
        ProvableOpError,
    >)
        requires
            self.requant.clamping_ok(),
        ensures
            ({
                let label = TableType::Clamping(self.requant.clamping_bits() as usize).label();
                match find_challenge(storage.challenge_map@, label) {
                    Some(c) => r == Ok::<(GoldilocksExt2, GoldilocksExt2), ProvableOpError>(
                        (storage.constant_challenge, c),
                    ),
                    None => generic_error(
                        r,
                        "Couldn't get challenges for LookupType: "@ + label,
                    ),
                }
            }),
    {
        storage.lookup_challenges(TableType::Clamping(self.requant.clamping_size()))
    }

    /// The number of range checks that are batched: one for each chunk.
    pub fn shifted_instances(&self) -> (r: usize)
        requires
            self.requant.total_shift() <= usize::MAX,
        ensures
            r == self.requant.num_chunks(),
    {
        self.requant.shift() / BIT_LEN
    }

    /// The value that the sum-check starts from. Fails where the clamping lookup has less than two
    /// claims.
    pub fn initial_evaluation(
        last_claim: &Claim<GoldilocksExt2>,
        clamping_evals: &[GoldilocksExt2],
        shifted_evals: &[GoldilocksExt2],
        batching_challenge: GoldilocksExt2,
    ) -> (r: Result<GoldilocksExt2, ProvableOpError>)
        ensures
            clamping_evals@.len() < 2 ==> generic_error(
                r,
                "The clamping lookup should have two claims"@,
            ),
            clamping_evals@.len() >= 2 ==> r is Ok && r->Ok_0@ == rlc(
                initial_values(
                    last_claim@.eval,
                    fviews(clamping_evals@),
                    fviews(shifted_evals@),
                ),
                batching_challenge@,
            ),
    {
        if clamping_evals.len() < 2 {
            return generic_err("The clamping lookup should have two claims");
        }
        let mut values: Vec<GoldilocksExt2> = Vec::new();
        values.push(last_claim.eval);
        values.push(clamping_evals[1]);
        values.push(clamping_evals[0]);
        let ghost head = seq![
            last_claim@.eval,
            fviews(clamping_evals@)[1],
            fviews(clamping_evals@)[0],
        ];
        let mut j: usize = 0;
        while j < shifted_evals.len()
            invariant
                j <= shifted_evals@.len(),
                fviews(values@) == head + fviews(shifted_evals@).take(j as int),
            decreases shifted_evals@.len() - j,
        {
            proof {
                lemma_fviews_push(values@, shifted_evals@[j as int]);
            }
            values.push(shifted_evals[j]);
            assert(fviews(values@) =~= head + fviews(shifted_evals@).take(j + 1));
            j = j + 1;
        }
        assert(fviews(values@) =~= initial_values(
            last_claim@.eval,
            fviews(clamping_evals@),
            fviews(shifted_evals@),
        ));
        Ok(power_combination(values.as_slice(), batching_challenge))
    }

    /// The size of the polynomial of the sum-check: products of two polynomials in as many
    /// variables as the point of the clamping lookup has coordinates.
    pub fn accumulation_aux(num_variables: usize) -> (r: VPAuxInfo)
        ensures
            r == (VPAuxInfo { max_degree: 2, num_variables }),
    {
        VPAuxInfo { max_degree: 2, num_variables }
    }

    /// Checks that the values that the prover sent give the value that the sum-check expects, and
    /// derives the claims from them. Fails where they do not, where there are less than two, or
    /// where the points have different numbers of coordinates.
    pub fn finish_verifying(
        &self,
        last_claim: &Claim<GoldilocksExt2>,
        clamping_point: &[GoldilocksExt2],
        shifted_point: &[GoldilocksExt2],
        accumulation_evals: &[GoldilocksExt2],
        batching_challenge: GoldilocksExt2,
        subclaim: &SubClaim,
    ) -> (r: Result<RequantOutcome, ProvableOpError>)
        requires
            1 <= self.requant.total_shift() <= 63,
            fint(self.requant.fixed_point_multiplier as int) != fzero(),
        ensures
            ({
                let n = subclaim.point@.len();
                let sizes = last_claim.point@.len() == n && clamping_point@.len() == n
                    && shifted_point@.len() == n;
                let acc = fviews(subclaim.point@);
                let evals = fviews(accumulation_evals@);
                let calc = rlc(
                    final_values(
                        identity(last_claim@.point, acc),
                        identity(fviews(clamping_point@), acc),
                        identity(fviews(shifted_point@), acc),
                        evals,
                    ),
                    batching_challenge@,
                );
                if !sizes {
                    generic_error(r, "The points of the claims have different sizes"@)
                } else if evals.len() < 2 {
                    generic_error(r, "The values of both clamping columns are expected"@)
                } else if calc != subclaim.expected_evaluation@ {
                    generic_error(r, claim_message(calc, subclaim.expected_evaluation@))
                } else {
                    r is Ok && outcome_is(self.requant, r->Ok_0, acc, evals)
                }
            }),
    {
        let n = subclaim.point.len();
        if last_claim.point.len() != n || clamping_point.len() != n || shifted_point.len() != n {
            return generic_err("The points of the claims have different sizes");
        }
        if accumulation_evals.len() < 2 {
            return generic_err("The values of both clamping columns are expected");
        }
        let last_beta = identity_eval(last_claim.point.as_slice(), subclaim.point.as_slice());
        let clamping_beta = identity_eval(clamping_point, subclaim.point.as_slice());
        let shifted_beta = identity_eval(shifted_point, subclaim.point.as_slice());
        let ghost evals = fviews(accumulation_evals@);
        let ghost want = final_values(last_beta@, clamping_beta@, shifted_beta@, evals);
        let mut values: Vec<GoldilocksExt2> = Vec::new();
        values.push(last_beta.times(accumulation_evals[1]));
        values.push(clamping_beta.times(accumulation_evals[1]));
        values.push(clamping_beta.times(accumulation_evals[0]));
        let mut j: usize = 2;
        assert(fviews(values@) =~= want.take(3));
        while j < accumulation_evals.len()
            invariant
                2 <= j <= accumulation_evals@.len(),
                evals == fviews(accumulation_evals@),
                want == final_values(last_beta@, clamping_beta@, shifted_beta@, evals),
                fviews(values@) == want.take(1 + j),
            decreases accumulation_evals@.len() - j,
        {
            let x = shifted_beta.times(accumulation_evals[j]);
            proof {
                lemma_fviews_push(values@, x);
            }
            values.push(x);
            assert(fviews(values@) =~= want.take(2 + j));
            j = j + 1;
        }
        assert(want.take(want.len() as int) =~= want);
        let calc_claim = power_combination(values.as_slice(), batching_challenge);
        if !calc_claim.same(&subclaim.expected_evaluation) {
            return Err(
                ProvableOpError::GenericError(
                    claim_text(calc_claim, subclaim.expected_evaluation),
                ),
            );
        }
        Ok(self.requant.outcome(subclaim.point.as_slice(), slice_to_vec(accumulation_evals)))
    }
}

impl RequantCtx {
    /// The shapes of the outputs: those of the inputs.
    pub fn output_shapes(&self, input_shapes: &[Vec<usize>], _padding_mode: PaddingMode) -> (r: Vec<
        Vec<usize>,
    >)
        ensures
            shapes(r@) == shapes(input_shapes@),
    {
        copy_shapes(input_shapes)
    }
}

} // verus!
