//! Verification of the proof of an inference.
use crate::arith::{flog2, ilog2};
use crate::claim::{Claim, ClaimView, cviews};
use crate::field::{Fe, GoldilocksExt2, fviews};
use crate::iop::{ChallengeStorage, find_challenge};
use crate::iop::error::{VerifierError, message_err, message_error};
use crate::layers::{LayerProof, LogUpProof};
use crate::layers::provable::{NodeCtx, NodeId};
use crate::lookup::context::TableType;
use crate::mle::{mle, mle_evaluate};
use crate::model::inputs::shorter;
use crate::tensor::{Tensor, TensorView, tviews};
use crate::text::{append_decimal, decimal, quote, quoted};
use std::collections::HashMap;
use vstd::arithmetic::power2::pow2;
use vstd::prelude::*;
use vstd::slice::slice_to_vec;
use vstd::string::*;

verus! {

/// What the verifier must have besides the proof: the inputs that the model was given, and the
/// outputs that it is said to have.
#[derive(Clone, Debug)]
pub struct IO<E> {
    pub input: Vec<Tensor<E>>,
    pub output: Vec<Tensor<E>>,
}

impl<E> IO<E> {
    pub fn new(input: Vec<Tensor<E>>, output: Vec<Tensor<E>>) -> (r: Self)
        ensures
            r.input == input,
            r.output == output,
    {
        IO { input, output }
    }
}

// ---------------------------------------------------------------------------------------
// Fractions of the lookups
// ---------------------------------------------------------------------------------------

/// The node needs a proof and has none.
pub open spec fn proof_missing<S, C>(
    nodes: Map<NodeId, NodeCtx>,
    steps: Map<NodeId, LayerProof<S, C>>,
    id: NodeId,
) -> bool {
    nodes[id].ctx.provable() && !steps.contains_key(id)
}

/// The message on a missing proof.
pub open spec fn missing_message(id: NodeId) -> Seq<char> {
    "Proof for node "@ + decimal(id as nat) + " not found"@
}

/// The fractions that the lookups of a node leave.
pub open spec fn node_fractions<S, C>(
    nodes: Map<NodeId, NodeCtx>,
    steps: Map<NodeId, LayerProof<S, C>>,
    id: NodeId,
) -> (Seq<Fe>, Seq<Fe>) {
    if nodes[id].ctx.provable() && steps[id].fractions() is Some {
        steps[id].fractions()->0
    } else {
        (Seq::empty(), Seq::empty())
    }
}

/// The fractions that the lookups of the first `k` nodes leave.
pub open spec fn nodes_fractions<S, C>(
    nodes: Map<NodeId, NodeCtx>,
    steps: Map<NodeId, LayerProof<S, C>>,
    order: Seq<NodeId>,
    k: nat,
) -> (Seq<Fe>, Seq<Fe>)
    decreases k,
{
    if k == 0 {
        (Seq::empty(), Seq::empty())
    } else {
        let p = nodes_fractions(nodes, steps, order, (k - 1) as nat);
        let f = node_fractions(nodes, steps, order[k - 1]);
        (p.0 + f.0, p.1 + f.1)
    }
}

/// The fractions that the first `k` tables leave.
pub open spec fn table_fractions<S>(tables: Seq<LogUpProof<S>>, k: nat) -> (Seq<Fe>, Seq<Fe>)
    decreases k,
{
    if k == 0 {
        (Seq::empty(), Seq::empty())
    } else {
        let p = table_fractions(tables, (k - 1) as nat);
        let t = tables[k - 1];
        (p.0 + fviews(t.numerators@), p.1 + fviews(t.denominators@))
    }
}

/// What the lookups of all nodes and tables leave.
pub open spec fn all_fractions<S, C>(
    nodes: Map<NodeId, NodeCtx>,
    steps: Map<NodeId, LayerProof<S, C>>,
    order: Seq<NodeId>,
    tables: Seq<LogUpProof<S>>,
) -> (Seq<Fe>, Seq<Fe>) {
    let n = nodes_fractions(nodes, steps, order, order.len());
    let t = table_fractions(tables, tables.len());
    (n.0 + t.0, n.1 + t.1)
}

/// The first `k` nodes have the proofs that they need.
pub open spec fn proofs_there<S, C>(
    nodes: Map<NodeId, NodeCtx>,
    steps: Map<NodeId, LayerProof<S, C>>,
    order: Seq<NodeId>,
    k: int,
) -> bool {
    forall|i: int| 0 <= i < k ==> !proof_missing(nodes, steps, #[trigger] order[i])
}

fn append_all(v: &mut Vec<GoldilocksExt2>, w: &[GoldilocksExt2])
    ensures
        fviews(final(v)@) == fviews(old(v)@) + fviews(w@),
{
    let ghost before = v@;
    let mut i: usize = 0;
    while i < w.len()
        invariant
            i <= w@.len(),
            v@ == before + w@.take(i as int),
        decreases w@.len() - i,
    {
        v.push(w[i]);
        assert(w@.take(i + 1) =~= w@.take(i as int).push(w@[i as int]));
        i = i + 1;
        assert(v@ =~= before + w@.take(i as int));
    }
    assert(w@.take(i as int) =~= w@);
    assert(fviews(v@) =~= fviews(before) + fviews(w@));
}

/// Collects what the lookups of all nodes and tables leave: numerators and denominators. Fails at
/// the first node without the proof that it needs.
pub fn collect_fractions<S, C>(
    nodes: &HashMap<NodeId, NodeCtx>,
    steps: &HashMap<NodeId, LayerProof<S, C>>,
    order: &[NodeId],
    tables: &[LogUpProof<S>],
) -> (r: Result<(Vec<GoldilocksExt2>, Vec<GoldilocksExt2>), VerifierError>)
    requires
        forall|i: int| 0 <= i < order@.len() ==> nodes@.contains_key(#[trigger] order@[i]),
    ensures
        r is Ok <==> proofs_there(nodes@, steps@, order@, order@.len() as int),
        r matches Ok(f) ==> (fviews(f.0@), fviews(f.1@)) == all_fractions(
            nodes@,
            steps@,
            order@,
            tables@,
        ),
        r is Err ==> exists|k: int|
            0 <= k < order@.len() && proof_missing(nodes@, steps@, #[trigger] order@[k])
                && proofs_there(nodes@, steps@, order@, k) && message_error(
                r,
                missing_message(order@[k]),
            ),
{
    let mut nums: Vec<GoldilocksExt2> = Vec::new();
    let mut denoms: Vec<GoldilocksExt2> = Vec::new();
    let mut k: usize = 0;
    proof {
        assert(fviews(nums@) =~= Seq::<Fe>::empty());
        assert(fviews(denoms@) =~= Seq::<Fe>::empty());
    }
    while k < order.len()
        invariant
            forall|i: int| 0 <= i < order@.len() ==> nodes@.contains_key(#[trigger] order@[i]),
            k <= order@.len(),
            proofs_there(nodes@, steps@, order@, k as int),
            (fviews(nums@), fviews(denoms@)) == nodes_fractions(nodes@, steps@, order@, k as nat),
        decreases order@.len() - k,
    {
        let id = order[k];
        assert(nodes@.contains_key(order@[k as int]));
        if let Some(node) = nodes.get(&id) {
            let ghost (a, b) = (fviews(nums@), fviews(denoms@));
            if node.ctx.has_proof() {
                match steps.get(&id) {
                    Some(p) => {
                        match p.get_lookup_data() {
                            Some((n, d)) => {
                                append_all(&mut nums, n.as_slice());
                                append_all(&mut denoms, d.as_slice());
                            },
                            None => {
                                assert(a + Seq::<Fe>::empty() =~= a);
                                assert(b + Seq::<Fe>::empty() =~= b);
                            },
                        }
                    },
                    None => {
                        let mut s = String::from_str("Proof for node ");
                        append_decimal(&mut s, id);
                        s.append(" not found");
                        assert(proof_missing(nodes@, steps@, order@[k as int]));
                        return Err(VerifierError::Message(s));
                    },
                }
            } else {
                proof {
                    assert(a + Seq::<Fe>::empty() =~= a);
                    assert(b + Seq::<Fe>::empty() =~= b);
                }
            }
        }
        k = k + 1;
    }
    let ghost n = nodes_fractions(nodes@, steps@, order@, order@.len());
    let mut t: usize = 0;
    proof {
        assert(n.0 + Seq::<Fe>::empty() =~= n.0);
        assert(n.1 + Seq::<Fe>::empty() =~= n.1);
    }
    while t < tables.len()
        invariant
            t <= tables@.len(),
            fviews(nums@) == n.0 + table_fractions(tables@, t as nat).0,
            fviews(denoms@) == n.1 + table_fractions(tables@, t as nat).1,
        decreases tables@.len() - t,
    {
        let ghost p = table_fractions(tables@, t as nat);
        append_all(&mut nums, tables[t].numerators.as_slice());
        append_all(&mut denoms, tables[t].denominators.as_slice());
        proof {
            assert((n.0 + p.0) + fviews(tables@[t as int].numerators@) =~= n.0 + (p.0 + fviews(
                tables@[t as int].numerators@,
            )));
            assert((n.1 + p.1) + fviews(tables@[t as int].denominators@) =~= n.1 + (p.1 + fviews(
                tables@[t as int].denominators@,
            )));
        }
        t = t + 1;
    }
    Ok((nums, denoms))
}

// ---------------------------------------------------------------------------------------
// Inputs and outputs
// ---------------------------------------------------------------------------------------

/// How many challenges the claim about an output needs.
pub fn output_challenges(out: &Tensor<GoldilocksExt2>) -> (r: usize)
    requires
        out@.data.len() > 0,
    ensures
        r == flog2(out@.data.len()),
{
    let n = out.data.len();
    ilog2(n)
}

/// The values of the tensor are those over a hypercube of as many dimensions as the point has.
pub open spec fn fits_point(t: TensorView<GoldilocksExt2>, point: Seq<Fe>) -> bool {
    t.data.len() == pow2(point.len())
}

/// The value of the multilinear extension of a tensor.
pub open spec fn tensor_mle(t: TensorView<GoldilocksExt2>, point: Seq<Fe>) -> Fe {
    mle(fviews(t.data), point)
}

/// The claims about the outputs at the given points.
pub fn output_claims(outputs: &[Tensor<GoldilocksExt2>], points: &[Vec<GoldilocksExt2>]) -> (r: Vec<
    Claim<GoldilocksExt2>,
>)
    requires
        outputs@.len() == points@.len(),
        forall|i: int|
            0 <= i < outputs@.len() ==> fits_point(
                (#[trigger] outputs@[i])@,
                fviews(points@[i]@),
            ),
    ensures
        cviews(r@) == Seq::new(
            outputs@.len(),
            |i: int|
                ClaimView {
                    point: fviews(points@[i]@),
                    eval: tensor_mle(outputs@[i]@, fviews(points@[i]@)),
                },
        ),
{
    let mut r: Vec<Claim<GoldilocksExt2>> = Vec::new();
    let mut i: usize = 0;
    while i < outputs.len()
        invariant
            outputs@.len() == points@.len(),
            forall|i: int|
                0 <= i < outputs@.len() ==> fits_point(
                    (#[trigger] outputs@[i])@,
                    fviews(points@[i]@),
                ),
            i <= outputs@.len(),
            r.len() == i,
            forall|j: int|
                0 <= j < i ==> (#[trigger] r@[j])@ == (ClaimView {
                    point: fviews(points@[j]@),
                    eval: tensor_mle(outputs@[j]@, fviews(points@[j]@)),
                }),
        decreases outputs@.len() - i,
    {
        assert(fits_point(outputs@[i as int]@, fviews(points@[i as int]@)));
        let eval = mle_evaluate(outputs[i].get_data(), points[i].as_slice());
        r.push(Claim::new(slice_to_vec(points[i].as_slice()), eval));
        i = i + 1;
    }
    assert(cviews(r@) =~= Seq::new(
        outputs@.len(),
        |i: int|
            ClaimView {
                point: fviews(points@[i]@),
                eval: tensor_mle(outputs@[i]@, fviews(points@[i]@)),
            },
    ));
    r
}

/// The claim about an input is true.
pub open spec fn input_valid(t: TensorView<GoldilocksExt2>, c: ClaimView) -> bool {
    tensor_mle(t, c.point) == c.eval
}

/// The message on a false claim about an input.
pub open spec fn input_message(i: nat) -> Seq<char> {
    "input "@ + decimal(i) + " not valid from proof"@
}

/// What the check of the claims about the inputs comes to.
pub open spec fn inputs_checked(
    inputs: Seq<TensorView<GoldilocksExt2>>,
    claims: Seq<ClaimView>,
    r: Result<(), VerifierError>,
) -> bool {
    let n = shorter(inputs.len(), claims.len());
    &&& r is Ok <==> forall|i: int| 0 <= i < n ==> input_valid(#[trigger] inputs[i], claims[i])
    &&& r is Err ==> exists|i: int|
        0 <= i < n && !input_valid(#[trigger] inputs[i], claims[i]) && message_error(
            r,
            input_message(i as nat),
        ) && forall|j: int| 0 <= j < i ==> input_valid(#[trigger] inputs[j], claims[j])
}

/// Checks the claims about the inputs. Fails at the first that is false.
pub fn check_inputs(inputs: &[Tensor<GoldilocksExt2>], claims: &[Claim<GoldilocksExt2>]) -> (r:
    Result<(), VerifierError>)
    requires
        forall|i: int|
            0 <= i < inputs@.len() && i < claims@.len() ==> fits_point(
                #[trigger] tviews(inputs@)[i],
                cviews(claims@)[i].point,
            ),
    ensures
        inputs_checked(tviews(inputs@), cviews(claims@), r),
{
    let ghost n = shorter(inputs@.len(), claims@.len());
    let mut i: usize = 0;
    while i < inputs.len() && i < claims.len()
        invariant
            forall|i: int|
                0 <= i < inputs@.len() && i < claims@.len() ==> fits_point(
                    #[trigger] tviews(inputs@)[i],
                    cviews(claims@)[i].point,
                ),
            n == shorter(inputs@.len(), claims@.len()),
            i <= n,
            forall|j: int|
                0 <= j < i ==> input_valid(#[trigger] tviews(inputs@)[j], cviews(claims@)[j]),
        decreases n - i,
    {
        assert(fits_point(tviews(inputs@)[i as int], cviews(claims@)[i as int].point));
        let eval = mle_evaluate(inputs[i].get_data(), claims[i].point.as_slice());
        if !eval.same(&claims[i].eval) {
            assert(!input_valid(tviews(inputs@)[i as int], cviews(claims@)[i as int]));
            let mut s = String::from_str("input ");
            append_decimal(&mut s, i);
            s.append(" not valid from proof");
            return Err(VerifierError::Message(s));
        }
        i = i + 1;
    }
    Ok(())
}

// ---------------------------------------------------------------------------------------
// Tables
// ---------------------------------------------------------------------------------------

impl ChallengeStorage {
    /// The challenges of a table. Fails where the table has none.
    pub fn table_challenges(&self, table: TableType) -> (r: Result<
        (GoldilocksExt2, GoldilocksExt2),
        VerifierError,
    >)
        ensures
            match find_challenge(self.challenge_map@, table.label()) {
                Some(c) => r == Ok::<(GoldilocksExt2, GoldilocksExt2), VerifierError>(
                    (self.constant_challenge, c),
                ),
                None => message_error(
                    r,
                    "No challenges found for table of type: "@ + quoted(table.label())
                        + " during verification"@,
                ),
            },
    {
        let name = table.name();
        match self.get_challenges_by_name(&name) {
            Some(c) => Ok(c),
            None => {
                let mut s = String::from_str("No challenges found for table of type: ");
                s.append(quote(name.as_str()).as_str());
                s.append(" during verification");
                Err(VerifierError::Message(s))
            },
        }
    }
}

/// The claim about the multiplicities of a table: the first of those that its lookup argument
/// leaves. Fails where it leaves none.
pub fn multiplicity_claim(claims: &[Claim<GoldilocksExt2>]) -> (r: Result<
    Claim<GoldilocksExt2>,
    VerifierError,
>)
    ensures
        claims@.len() > 0 ==> r is Ok && r->Ok_0@ == claims@[0]@,
        claims@.len() == 0 ==> message_error(r, "Claims was empty in table verification!"@),
{
    if claims.len() == 0 {
        return message_err("Claims was empty in table verification!");
    }
    Ok(claims[0].copy())
}

/// What the check of the claims about the columns of a table comes to.
pub open spec fn table_checked(
    claims: Seq<Claim<GoldilocksExt2>>,
    expected: Seq<GoldilocksExt2>,
    r: Result<(), VerifierError>,
) -> bool {
    if expected.len() != claims.len() - 1 {
        message_error(
            r,
            "Expected "@ + decimal(expected.len()) + " table column evaluation claims, got "@
                + decimal((claims.len() - 1) as nat),
        )
    } else {
        &&& r is Ok <==> forall|i: int|
            0 <= i < expected.len() ==> claims[i + 1]@.eval == (#[trigger] expected[i])@
        &&& r is Err ==> exists|i: int|
            0 <= i < expected.len() && claims[i + 1]@.eval != (#[trigger] expected[i])@ && r
                == Err::<(), VerifierError>(
                VerifierError::TableEvaluation(claims[i + 1].eval, expected[i]),
            ) && forall|j: int|
                0 <= j < i ==> claims[j + 1]@.eval == (#[trigger] expected[j])@
    }
}

/// Checks the claims about the columns of a table, those behind the first, against their values at
/// the point. Fails on a wrong number of them, and at the first that is wrong.
pub fn check_table(claims: &[Claim<GoldilocksExt2>], expected: &[GoldilocksExt2]) -> (r: Result<
    (),
    VerifierError,
>)
    requires
        claims@.len() > 0,
    ensures
        table_checked(claims@, expected@, r),
{
    let n = expected.len();
    let count = claims.len() - 1;
    if n != count {
        let mut s = String::from_str("Expected ");
        append_decimal(&mut s, n);
        s.append(" table column evaluation claims, got ");
        append_decimal(&mut s, count);
        return Err(VerifierError::Message(s));
    }
    let mut i: usize = 0;
    while i < n
        invariant
            n == expected@.len(),
            n == claims@.len() - 1,
            i <= n,
            forall|j: int| 0 <= j < i ==> claims@[j + 1]@.eval == (#[trigger] expected@[j])@,
        decreases n - i,
    {
        let claimed = claims[i + 1].eval;
        if !claimed.same(&expected[i]) {
            assert(claims@[i + 1]@.eval != expected@[i as int]@);
            return Err(VerifierError::TableEvaluation(claimed, expected[i]));
        }
        i = i + 1;
    }
    Ok(())
}

} // verus!
