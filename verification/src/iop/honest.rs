//! Verifications of runs that were proved as they should be: true claims lead to true claims.
use crate::claim::{Claim, ClaimView, cviews};
use crate::field::{Fe, GoldilocksExt2, fviews, fzero};
use crate::iop::claims::{claim_known, claim_views, is_input_claim, takes_input, wire_claim};
use crate::iop::error::VerifierError;
use crate::iop::fractions::{fraction_sum, fractions_checked};
use crate::iop::session::{Verifier, law_accepted};
use crate::iop::verify::{IO, input_valid, tensor_mle};
use crate::layers::provable::{Edge, NodeCtx, NodeId};
use crate::mle::mle;
use crate::model::order::lemma_order_nodes;
use crate::tensor::{Tensor, tviews};
use vstd::prelude::*;

verus! {

/// The values that went over the edges of a run: the inputs and the outputs of each node, and those
/// of the model.
#[verifier::ext_equal]
pub struct RunValues {
    pub ins: Map<NodeId, Seq<Seq<Fe>>>,
    pub outs: Map<NodeId, Seq<Seq<Fe>>>,
    pub model_in: Seq<Seq<Fe>>,
    pub model_out: Seq<Seq<Fe>>,
}

/// The claim tells the value of the extension of `v` at its point.
pub open spec fn true_of(c: ClaimView, v: Seq<Fe>) -> bool {
    c.eval == mle(v, c.point)
}

/// What a tensor holds.
pub open spec fn tensor_values(s: Seq<Tensor<GoldilocksExt2>>) -> Seq<Seq<Fe>> {
    Seq::new(s.len(), |i: int| fviews(s[i]@.data))
}

/// What goes into edge `e` is what comes out of it.
pub open spec fn edge_carries(t: RunValues, e: Edge, v: Seq<Fe>) -> bool {
    match e.node {
        Some(n) => t.ins.contains_key(n) && e.index < t.ins[n].len()
            ==> t.ins[n][e.index as int] == v,
        None => e.index < t.model_out.len() ==> t.model_out[e.index as int] == v,
    }
}

/// The values went along the edges: the outputs of the nodes to the inputs that they go to and to
/// the outputs of the model, and the inputs of the model to the inputs that take them.
pub open spec fn carried(nodes: Map<NodeId, NodeCtx>, t: RunValues) -> bool {
    &&& forall|id: NodeId, w: int, j: int|
        nodes.contains_key(id) && 0 <= w < nodes[id].outputs@.len() && 0 <= j
            < nodes[id].outputs@[w].edges@.len() ==> edge_carries(
            t,
            #[trigger] nodes[id].outputs@[w].edges@[j],
            t.outs[id][w],
        )
    &&& forall|id: NodeId, i: int, k: usize| #[trigger]
        takes_input(nodes, id, i, k) && k < t.model_in.len() ==> t.ins[id][i]
            == t.model_in[k as int]
}

/// The claims about the inputs of a node are true.
pub open spec fn node_claims_true(t: RunValues, id: NodeId, c: Seq<ClaimView>) -> bool {
    &&& t.ins.contains_key(id)
    &&& c.len() <= t.ins[id].len()
    &&& forall|i: int| 0 <= i < c.len() ==> true_of(#[trigger] c[i], t.ins[id][i])
}

impl<S, C> Verifier<S, C> {
    /// The verification is about the run, and all claims that it holds are true.
    pub open spec fn honest(self, t: RunValues) -> bool {
        let m = claim_views(self.claims@);
        &&& carried(self.nodes@, t)
        &&& t.model_in == tensor_values(self.input@)
        &&& self.out_claims@.len() <= t.model_out.len()
        &&& forall|k: int|
            0 <= k < self.out_claims@.len() ==> true_of(
                #[trigger] cviews(self.out_claims@)[k],
                t.model_out[k],
            )
        &&& forall|id: NodeId| #[trigger] m.contains_key(id) ==> node_claims_true(t, id, m[id])
    }
}

/// A verification starts with true claims: those about the outputs of the model, which the verifier
/// evaluates.
pub proof fn law_honest_start<S, C>(
    v: Verifier<S, C>,
    io: IO<GoldilocksExt2>,
    points: Seq<Seq<Fe>>,
    t: RunValues,
)
    requires
        v.input == io.input,
        v.claims@ == Map::<NodeId, Vec<Claim<GoldilocksExt2>>>::empty(),
        cviews(v.out_claims@) == Seq::new(
            io.output@.len(),
            |i: int|
                ClaimView { point: points[i], eval: tensor_mle(io.output@[i]@, points[i]) },
        ),
        carried(v.nodes@, t),
        t.model_in == tensor_values(io.input@),
        t.model_out == tensor_values(io.output@),
    ensures
        v.honest(t),
{
    let o = cviews(v.out_claims@);
    assert(o.len() == v.out_claims@.len());
    assert forall|k: int| 0 <= k < v.out_claims@.len() implies true_of(
        #[trigger] o[k],
        t.model_out[k],
    ) by {
        assert(t.model_out[k] == fviews(io.output@[k]@.data));
    }
}

/// Where all claims are true, so is each claim that is handed out about an output of the next node.
pub proof fn law_honest_next<S, C>(v: Verifier<S, C>, t: RunValues, w: int)
    requires
        v.wf(),
        v.left > 0,
        v.honest(t),
        0 <= w < v.nodes@[v.current()].outputs@.len(),
        wire_claim(
            claim_views(v.claims@),
            cviews(v.out_claims@),
            v.nodes@[v.current()].outputs@[w].edges@,
        ) is Some,
    ensures
        true_of(
            wire_claim(
                claim_views(v.claims@),
                cviews(v.out_claims@),
                v.nodes@[v.current()].outputs@[w].edges@,
            )->0,
            t.outs[v.current()][w],
        ),
{
    let id = v.current();
    let m = claim_views(v.claims@);
    let o = cviews(v.out_claims@);
    lemma_order_nodes(v.nodes@, v.order@);
    assert(v.nodes@.contains_key(id));
    let e = v.nodes@[id].outputs@[w].edges@[0];
    assert(edge_carries(t, v.nodes@[id].outputs@[w].edges@[0], t.outs[id][w]));
    match e.node {
        Some(n) => {
            assert(m.contains_key(n));
            assert(node_claims_true(t, n, m[n]));
            assert(true_of(m[n][e.index as int], t.ins[n][e.index as int]));
        },
        None => {
            assert(o.len() == v.out_claims@.len());
            assert(true_of(o[e.index as int], t.model_out[e.index as int]));
        },
    }
}

/// Where all claims are true and true claims are handed back about the inputs of a node, all claims
/// are true still.
pub proof fn law_honest_record<S, C>(
    before: Verifier<S, C>,
    after: Verifier<S, C>,
    id: NodeId,
    c: Vec<Claim<GoldilocksExt2>>,
    t: RunValues,
)
    requires
        before.honest(t),
        node_claims_true(t, id, cviews(c@)),
        after.nodes == before.nodes,
        after.input == before.input,
        after.out_claims == before.out_claims,
        after.claims@ == before.claims@.insert(id, c),
    ensures
        after.honest(t),
{
    let m = claim_views(before.claims@);
    let n = claim_views(after.claims@);
    assert forall|k: NodeId| #[trigger] n.contains_key(k) implies node_claims_true(t, k, n[k]) by {
        if k == id {
            assert(n[k] == cviews(c@));
        } else {
            assert(m.contains_key(k));
            assert(n[k] == m[k]);
        }
    }
}

/// Where all claims are true, those about the inputs of the model pass their check: a verification
/// ends as the fractions of the lookups decide.
pub proof fn law_honest_finish<S, C>(
    v: Verifier<S, C>,
    t: RunValues,
    c: Seq<ClaimView>,
    r: Result<(), VerifierError>,
)
    requires
        v.honest(t),
        v.is_choice(c),
        v.finished(c, r),
        v.input@.len() <= usize::MAX,
    ensures
        forall|i: int|
            0 <= i < v.input@.len() && i < c.len() ==> input_valid(
                #[trigger] tviews(v.input@)[i],
                c[i],
            ),
        fractions_checked(fviews(v.numerators@), fviews(v.denominators@), r),
{
    let m = claim_views(v.claims@);
    let inputs = tviews(v.input@);
    assert forall|i: int| 0 <= i < v.input@.len() && i < c.len() implies input_valid(
        #[trigger] inputs[i],
        c[i],
    ) by {
        let k = i as usize;
        assert(is_input_claim(v.nodes@, m, k, c[k as int]));
        let (id, j) = choose|id: NodeId, j: int| #[trigger]
            takes_input(v.nodes@, id, j, k) && claim_known(m, id, j) && c[k as int] == m[id][j];
        assert(takes_input(v.nodes@, id, j, k));
        assert(node_claims_true(t, id, m[id]));
        assert(true_of(m[id][j], t.ins[id][j]));
        assert(t.model_in[k as int] == fviews(v.input@[k as int]@.data));
    }
}

// ---------------------------------------------------------------------------------------
// The whole course
// ---------------------------------------------------------------------------------------

/// All claims that can be handed out about the outputs of the next node are true.
pub open spec fn handed_true<S, C>(v: Verifier<S, C>, t: RunValues) -> bool {
    let outputs = v.nodes@[v.current()].outputs@;
    forall|w: int|
        0 <= w < outputs.len() && wire_claim(
            claim_views(v.claims@),
            cviews(v.out_claims@),
            (#[trigger] outputs[w]).edges@,
        ) is Some ==> true_of(
            wire_claim(claim_views(v.claims@), cviews(v.out_claims@), outputs[w].edges@)->0,
            t.outs[v.current()][w],
        )
}

/// The verification went on by one node, for which claims were handed back that are true if those
/// handed out are.
pub open spec fn node_step<S, C>(
    before: Verifier<S, C>,
    after: Verifier<S, C>,
    c: Vec<Claim<GoldilocksExt2>>,
    t: RunValues,
) -> bool {
    &&& before.left > 0
    &&& after == (Verifier {
        left: (before.left - 1) as usize,
        claims: after.claims,
        ..before
    })
    &&& after.claims@ == before.claims@.insert(before.current(), c)
    &&& handed_true(before, t) ==> node_claims_true(t, before.current(), cviews(c@))
}

/// The verification went on by one lookup table.
pub open spec fn table_step<S, C>(before: Verifier<S, C>, after: Verifier<S, C>) -> bool {
    &&& before.tables_done < before.tables@.len()
    &&& after == (Verifier { tables_done: (before.tables_done + 1) as usize, ..before })
}

/// One step of a verification of which each layer does its part.
pub open spec fn honest_step<S, C>(
    before: Verifier<S, C>,
    after: Verifier<S, C>,
    t: RunValues,
) -> bool {
    before.wf() && (table_step(before, after) || exists|c: Vec<Claim<GoldilocksExt2>>| #[trigger]
        node_step(before, after, c, t))
}

/// From true claims on, all states of a verification hold true claims.
proof fn lemma_honest_states<S, C>(states: Seq<Verifier<S, C>>, t: RunValues, k: int)
    requires
        0 <= k < states.len(),
        states[0].honest(t),
        forall|i: int|
            0 <= i < states.len() - 1 ==> honest_step(#[trigger] states[i], states[i + 1], t),
    ensures
        states[k].honest(t),
        states[k].numerators == states[0].numerators,
        states[k].denominators == states[0].denominators,
        states[k].input == states[0].input,
    decreases k,
{
    if k > 0 {
        let before = states[k - 1];
        let after = states[k];
        lemma_honest_states(states, t, k - 1);
        assert(honest_step(states[k - 1], states[k - 1 + 1], t));
        if !table_step(before, after) {
            let c = choose|c: Vec<Claim<GoldilocksExt2>>| #[trigger]
                node_step(before, after, c, t);
            let outputs = before.nodes@[before.current()].outputs@;
            assert(handed_true(before, t)) by {
                assert forall|w: int|
                    0 <= w < outputs.len() && wire_claim(
                        claim_views(before.claims@),
                        cviews(before.out_claims@),
                        (#[trigger] outputs[w]).edges@,
                    ) is Some implies true_of(
                    wire_claim(
                        claim_views(before.claims@),
                        cviews(before.out_claims@),
                        outputs[w].edges@,
                    )->0,
                    t.outs[before.current()][w],
                ) by {
                    law_honest_next(before, t, w);
                }
            }
            law_honest_record(before, after, before.current(), c, t);
        }
    }
}

/// A verification is accepted where each layer hands back true claims for true ones and the
/// fractions of the lookups add up to zero. `states` are the states that it goes through, from the
/// start, with true claims about the outputs, to the end, and `r` is what it ends with.
pub proof fn law_verification_accepted<S, C>(
    states: Seq<Verifier<S, C>>,
    t: RunValues,
    c: Seq<ClaimView>,
    r: Result<(), VerifierError>,
)
    requires
        states.len() > 0,
        states[0].honest(t),
        forall|i: int|
            0 <= i < states.len() - 1 ==> honest_step(#[trigger] states[i], states[i + 1], t),
        states.last().is_choice(c),
        states.last().finished(c, r),
        states[0].input@.len() <= usize::MAX,
        states[0].numerators@.len() == states[0].denominators@.len(),
        forall|i: int|
            0 <= i < states[0].denominators@.len() ==> #[trigger] fviews(
                states[0].denominators@,
            )[i] != fzero(),
        fraction_sum(
            fviews(states[0].numerators@),
            fviews(states[0].denominators@),
            states[0].numerators@.len(),
        ) == fzero(),
    ensures
        r is Ok,
        forall|k: int| 0 <= k < states.len() ==> (#[trigger] states[k]).honest(t),
{
    let last = states.last();
    let n = states.len() - 1;
    assert forall|k: int| 0 <= k < states.len() implies (#[trigger] states[k]).honest(t) by {
        lemma_honest_states(states, t, k);
    }
    lemma_honest_states(states, t, n);
    law_honest_finish(last, t, c, r);
    law_accepted(last, c, r);
}

} // verus!
