//! The course of a verification: from the outputs of the model back to its inputs.
use crate::claim::{Claim, ClaimView, cviews};
use crate::field::{GoldilocksExt2, fviews, fzero, lemma_fviews_fe};
use crate::iop::claims::{
    claim_known, claim_views, claims_known, first_unclaimed, input_claims, inputs_complete,
    is_input_claim, resulting_claims, takes_input, unclaimed_message, wire_claim,
};
use crate::iop::context::ShapeStep;
use crate::iop::error::{VerifierError, message_err, message_error};
use crate::iop::fractions::{check_fractions, fraction_sum, fractions_checked, law_fractions};
use crate::iop::shapes::{InputShapes, model_shapes, shape_steps, step_views};
use crate::iop::verify::{
    IO, all_fractions, check_inputs, check_table, collect_fractions, fits_point, input_valid,
    inputs_checked, missing_message, output_claims, proof_missing, proofs_there, table_checked,
    tensor_mle,
};
use crate::layers::{LayerProof, LogUpProof};
use crate::layers::provable::{NodeCtx, NodeId};
use crate::layers::provable::error::ProvableOpError;
use crate::lookup::context::TableType;
use crate::model::inputs::shorter;
use crate::model::order::{forward_order, lemma_order_nodes, ordered, sources};
use crate::shape::shapes;
use crate::tensor::{Tensor, tviews};
use std::collections::HashMap;
use vstd::prelude::*;
use vstd::slice::slice_to_vec;

verus! {

/// A verification under way. The nodes are gone through backwards: the caller asks for the next
/// node, verifies its proof on the claims about its outputs, and hands back the claims about its
/// inputs. Then the lookup tables are gone through in the same way.
#[derive(Debug)]
pub struct Verifier<S, C> {
    pub nodes: HashMap<NodeId, NodeCtx>,
    pub steps: HashMap<NodeId, LayerProof<S, C>>,
    pub input: Vec<Tensor<GoldilocksExt2>>,
    /// The nodes in forward order.
    pub order: Vec<NodeId>,
    /// How many nodes, the first of the order, are left.
    pub left: usize,
    pub shape_steps: HashMap<NodeId, ShapeStep>,
    /// The claims about the outputs of the model.
    pub out_claims: Vec<Claim<GoldilocksExt2>>,
    /// The claims about the inputs of the nodes that were gone through.
    pub claims: HashMap<NodeId, Vec<Claim<GoldilocksExt2>>>,
    pub numerators: Vec<GoldilocksExt2>,
    pub denominators: Vec<GoldilocksExt2>,
    /// The lookup tables that come with a proof.
    pub tables: Vec<TableType>,
    /// How many of them, the first, were gone through.
    pub tables_done: usize,
}

/// The shapes of a sequence of tensors.
pub open spec fn tensor_shapes(s: Seq<Tensor<GoldilocksExt2>>) -> Seq<Seq<usize>> {
    Seq::new(s.len(), |i: int| s[i]@.shape)
}

fn shapes_of_inputs(inputs: &[Tensor<GoldilocksExt2>]) -> (r: Vec<Vec<usize>>)
    ensures
        shapes(r@) == tensor_shapes(inputs@),
        r@.len() == inputs@.len(),
{
    let mut r: Vec<Vec<usize>> = Vec::new();
    let mut i: usize = 0;
    while i < inputs.len()
        invariant
            i <= inputs@.len(),
            r.len() == i,
            forall|j: int| 0 <= j < i ==> (#[trigger] r@[j])@ == inputs@[j]@.shape,
        decreases inputs@.len() - i,
    {
        r.push(inputs[i].get_shape());
        i = i + 1;
    }
    assert(shapes(r@) =~= tensor_shapes(inputs@));
    r
}

/// Shapes are known of the nodes that were gone through.
proof fn lemma_shapes_known(
    nodes: Map<NodeId, NodeCtx>,
    order: Seq<NodeId>,
    k: nat,
    x: InputShapes,
)
    requires
        k <= order.len(),
    ensures
        model_shapes(nodes, order, k, x) matches Ok(m) ==> forall|i: int|
            0 <= i < k ==> m.contains_key(#[trigger] order[i]),
    decreases k,
{
    if k > 0 {
        lemma_shapes_known(nodes, order, (k - 1) as nat, x);
    }
}

/// What starting a verification leads to, where the nodes are gone through in the given order.
pub open spec fn started<S, C>(
    nodes: Map<NodeId, NodeCtx>,
    steps: Map<NodeId, LayerProof<S, C>>,
    x: InputShapes,
    order: Seq<NodeId>,
    r: Result<Verifier<S, C>, VerifierError>,
) -> bool {
    if !proofs_there(nodes, steps, order, order.len() as int) {
        exists|k: int|
            0 <= k < order.len() && proof_missing(nodes, steps, #[trigger] order[k])
                && proofs_there(nodes, steps, order, k) && message_error(
                r,
                missing_message(order[k]),
            )
    } else {
        match model_shapes(nodes, order, order.len(), x) {
            Err(m) => message_error(r, m),
            Ok(m) => r is Ok && step_views(r->Ok_0.shape_steps@) == m,
        }
    }
}

impl<S, C> Verifier<S, C> {
    /// The nodes that are left come first in the order, and the shapes of all are known.
    pub open spec fn wf(self) -> bool {
        &&& ordered(sources(self.nodes@), self.order@)
        &&& self.left <= self.order@.len()
        &&& self.tables_done <= self.tables@.len()
        &&& proofs_there(self.nodes@, self.steps@, self.order@, self.order@.len() as int)
        &&& forall|n: NodeId| #[trigger]
            self.nodes@.contains_key(n) ==> self.shape_steps@.contains_key(n)
    }

    /// Starts a verification: collects the fractions of the lookups, tells the shapes of all
    /// nodes, and derives the claims about the outputs at the given points.
    pub fn new(
        nodes: HashMap<NodeId, NodeCtx>,
        steps: HashMap<NodeId, LayerProof<S, C>>,
        tables: &[LogUpProof<S>],
        table_types: &[TableType],
        unpadded_input_shapes: &[Vec<usize>],
        io: IO<GoldilocksExt2>,
        points: &[Vec<GoldilocksExt2>],
    ) -> (r: Result<Self, VerifierError>)
        requires
            io.output@.len() == points@.len(),
            forall|i: int|
                0 <= i < io.output@.len() ==> fits_point(
                    (#[trigger] io.output@[i])@,
                    fviews(points@[i]@),
                ),
        ensures
            (forall|order: Seq<NodeId>| !#[trigger] ordered(sources(nodes@), order))
                ==> message_error(r, "The nodes of the model cannot be put in order"@),
            (exists|order: Seq<NodeId>| #[trigger] ordered(sources(nodes@), order)) ==> exists|
                order: Seq<NodeId>,
            | #[trigger]
                ordered(sources(nodes@), order) && started(
                    nodes@,
                    steps@,
                    InputShapes {
                        unpadded: shapes(unpadded_input_shapes@),
                        padded: tensor_shapes(io.input@),
                    },
                    order,
                    r,
                ) && (r matches Ok(v) ==> v.order@ == order),
            r matches Ok(v) ==> {
                &&& v.wf()
                &&& v.nodes == nodes
                &&& v.steps == steps
                &&& v.input == io.input
                &&& v.left == v.order@.len()
                &&& v.tables@ == table_types@.take(
                    shorter(tables@.len(), table_types@.len()) as int,
                )
                &&& v.tables_done == 0
                &&& v.claims@ == Map::<NodeId, Vec<Claim<GoldilocksExt2>>>::empty()
                &&& (fviews(v.numerators@), fviews(v.denominators@)) == all_fractions(
                    nodes@,
                    steps@,
                    v.order@,
                    tables@,
                )
                &&& cviews(v.out_claims@) == Seq::new(
                    io.output@.len(),
                    |i: int|
                        ClaimView {
                            point: fviews(points@[i]@),
                            eval: tensor_mle(io.output@[i]@, fviews(points@[i]@)),
                        },
                )
            },
    {
        let ghost x = InputShapes {
            unpadded: shapes(unpadded_input_shapes@),
            padded: tensor_shapes(io.input@),
        };
        let order = match forward_order(&nodes) {
            Some(order) => order,
            None => {
                return message_err("The nodes of the model cannot be put in order");
            },
        };
        proof {
            lemma_order_nodes(nodes@, order@);
        }
        let (numerators, denominators) = match collect_fractions(
            &nodes,
            &steps,
            order.as_slice(),
            tables,
        ) {
            Ok(f) => f,
            Err(e) => {
                let r = Err(e);
                assert(started(nodes@, steps@, x, order@, r));
                return r;
            },
        };
        let out_claims = output_claims(io.output.as_slice(), points);
        let padded = shapes_of_inputs(io.input.as_slice());
        let shape_steps = match shape_steps(
            &nodes,
            order.as_slice(),
            unpadded_input_shapes,
            padded.as_slice(),
        ) {
            Ok(s) => s,
            Err(e) => {
                let r = Err(e);
                assert(started(nodes@, steps@, x, order@, r));
                return r;
            },
        };
        proof {
            lemma_shapes_known(nodes@, order@, order@.len(), x);
            assert forall|n: NodeId| #[trigger]
                nodes@.contains_key(n) implies shape_steps@.contains_key(n) by {
                assert(order@.contains(n));
                let i = choose|i: int| 0 <= i < order@.len() && order@[i] == n;
                assert(step_views(shape_steps@).contains_key(order@[i]));
            }
        }
        let left = order.len();
        let count = if tables.len() <= table_types.len() {
            tables.len()
        } else {
            table_types.len()
        };
        let types = slice_to_vec(vstd::slice::slice_subrange(table_types, 0, count));
        assert(types@ =~= table_types@.take(shorter(tables@.len(), table_types@.len()) as int));
        let v = Verifier {
            nodes,
            steps,
            input: io.input,
            order,
            left,
            shape_steps,
            out_claims,
            claims: HashMap::new(),
            numerators,
            denominators,
            tables: types,
            tables_done: 0,
        };
        let r = Ok(v);
        assert(started(nodes@, steps@, x, v.order@, r));
        r
    }

    /// The node whose turn it is.
    pub open spec fn current(self) -> NodeId {
        self.order@[self.left - 1]
    }

    /// The next node, with the claims about its outputs; none where no node is left. Fails where
    /// there is no claim about an output.
    pub fn next_node(&self) -> (r: Result<
        Option<(NodeId, Vec<Claim<GoldilocksExt2>>)>,
        VerifierError,
    >)
        requires
            self.wf(),
        ensures
            self.left == 0 ==> r is Ok && r->Ok_0 is None,
            self.left > 0 ==> (r is Ok <==> forall|w: int|
                0 <= w < self.nodes@[self.current()].outputs@.len() ==> wire_claim(
                    claim_views(self.claims@),
                    cviews(self.out_claims@),
                    (#[trigger] self.nodes@[self.current()].outputs@[w]).edges@,
                ) is Some),
            self.left > 0 && r is Ok ==> {
                &&& r->Ok_0 is Some
                &&& (r->Ok_0->0).0 == self.current()
                &&& cviews((r->Ok_0->0).1@) == Seq::new(
                    self.nodes@[self.current()].outputs@.len(),
                    |w: int|
                        wire_claim(
                            claim_views(self.claims@),
                            cviews(self.out_claims@),
                            self.nodes@[self.current()].outputs@[w].edges@,
                        )->0,
                )
            },
            r is Err ==> exists|w: int| #[trigger]
                first_unclaimed(
                    claim_views(self.claims@),
                    cviews(self.out_claims@),
                    self.nodes@[self.current()].outputs@,
                    w,
                ) && message_error(r, unclaimed_message(w)),
    {
        if self.left == 0 {
            return Ok(None);
        }
        let id = self.order[self.left - 1];
        proof {
            lemma_order_nodes(self.nodes@, self.order@);
            assert(self.nodes@.contains_key(self.order@[self.left - 1]));
        }
        match self.nodes.get(&id) {
            Some(node) => match node.claims_for_node(&self.claims, self.out_claims.as_slice()) {
                Ok(claims) => Ok(Some((id, claims))),
                Err(e) => Err(e),
            },
            None => message_err("The nodes of the model cannot be put in order"),
        }
    }

    /// The proof of a node, where it needs one.
    pub fn layer_proof(&self, id: NodeId) -> (r: Option<&LayerProof<S, C>>)
        requires
            self.wf(),
            self.nodes@.contains_key(id),
        ensures
            r == if self.nodes@[id].ctx.provable() {
                Some(&self.steps@[id])
            } else {
                None
            },
    {
        proof {
            lemma_order_nodes(self.nodes@, self.order@);
            assert(self.order@.contains(id));
            let i = choose|i: int| 0 <= i < self.order@.len() && self.order@[i] == id;
            assert(!proof_missing(self.nodes@, self.steps@, self.order@[i]));
        }
        match self.nodes.get(&id) {
            Some(node) => if node.ctx.has_proof() {
                self.steps.get(&id)
            } else {
                None
            },
            None => None,
        }
    }

    /// The shapes of a node.
    pub fn shape_step(&self, id: NodeId) -> (r: Option<&ShapeStep>)
        requires
            self.wf(),
        ensures
            self.nodes@.contains_key(id) ==> r is Some && *r->0 == self.shape_steps@[id],
    {
        self.shape_steps.get(&id)
    }

    /// Takes what the verification of the node whose turn it is came to, and goes on to the next.
    /// `given` are the claims that it was verified on. Fails where its proof is not valid.
    pub fn record(
        &mut self,
        given: Vec<Claim<GoldilocksExt2>>,
        res: Result<Vec<Claim<GoldilocksExt2>>, ProvableOpError>,
    ) -> (r: Result<(), VerifierError>)
        requires
            old(self).wf(),
            old(self).left > 0,
        ensures
            final(self).wf(),
            match res {
                Err(ProvableOpError::NotProvableLayer(_)) => r is Ok && *final(self) == (Verifier {
                    left: (old(self).left - 1) as usize,
                    claims: final(self).claims,
                    ..*old(self)
                }) && final(self).claims@ == old(self).claims@.insert(old(self).current(), given),
                Err(e) => *final(self) == *old(self) && r == Err::<(), VerifierError>(
                    VerifierError::Operation(e),
                ),
                Ok(c) => r is Ok && *final(self) == (Verifier {
                    left: (old(self).left - 1) as usize,
                    claims: final(self).claims,
                    ..*old(self)
                }) && final(self).claims@ == old(self).claims@.insert(old(self).current(), c),
            },
    {
        match resulting_claims(res, given) {
            Ok(c) => {
                let id = self.order[self.left - 1];
                self.claims.insert(id, c);
                self.left = self.left - 1;
                Ok(())
            },
            Err(e) => Err(e),
        }
    }

    /// The next lookup table whose proof is to be verified, with the number of the proof; none where
    /// no table is left.
    pub fn next_table(&self) -> (r: Option<(usize, TableType)>)
        requires
            self.wf(),
        ensures
            r == if self.tables_done < self.tables@.len() {
                Some((self.tables_done, self.tables@[self.tables_done as int]))
            } else {
                None
            },
    {
        if self.tables_done < self.tables.len() {
            Some((self.tables_done, self.tables[self.tables_done]))
        } else {
            None
        }
    }

    /// Takes the claims that the lookup argument of the next table left, and the values of the
    /// columns of the table at their point, and goes on to the next table. Fails where there is no
    /// claim, where there is not one claim for each column behind the first claim, or where one of
    /// them is false.
    pub fn record_table(
        &mut self,
        claims: &[Claim<GoldilocksExt2>],
        expected: &[GoldilocksExt2],
    ) -> (r: Result<(), VerifierError>)
        requires
            old(self).wf(),
            old(self).tables_done < old(self).tables@.len(),
        ensures
            final(self).wf(),
            if claims@.len() == 0 {
                message_error(r, "Claims was empty in table verification!"@)
            } else {
                table_checked(claims@, expected@, r)
            },
            *final(self) == if r is Ok {
                Verifier { tables_done: (old(self).tables_done + 1) as usize, ..*old(self) }
            } else {
                *old(self)
            },
    {
        if claims.len() == 0 {
            return message_err("Claims was empty in table verification!");
        }
        let count = self.tables.len();
        assert(self.tables_done < count);
        let r = check_table(claims, expected);
        if r.is_ok() {
            self.tables_done = self.tables_done + 1;
        }
        r
    }

    /// The claims about the inputs of the model go with the inputs.
    pub open spec fn inputs_fit(self) -> bool {
        forall|id: NodeId, i: int, k: usize| #[trigger]
            takes_input(self.nodes@, id, i, k) && claim_known(claim_views(self.claims@), id, i) && k
                < self.input@.len() ==> fits_point(
                self.input@[k as int]@,
                claim_views(self.claims@)[id][i].point,
            )
    }

    /// One claim about each input of the model.
    pub open spec fn is_choice(self, c: Seq<ClaimView>) -> bool {
        &&& inputs_complete(self.nodes@, c.len())
        &&& forall|k: usize|
            k < c.len() ==> is_input_claim(
                self.nodes@,
                claim_views(self.claims@),
                k,
                #[trigger] c[k as int],
            )
    }

    /// Ends a verification in which all nodes were gone through: checks the claims about the inputs
    /// of the model, and that the fractions of the lookups add up to zero. Fails where a lookup
    /// table is left.
    pub fn finish(&self) -> (r: Result<(), VerifierError>)
        requires
            self.wf(),
            self.left == 0,
            self.inputs_fit(),
        ensures
            ({
                let done = self.tables_done == self.tables@.len();
                let known = claims_known(self.nodes@, claim_views(self.claims@));
                let complete = exists|n: nat|
                    n <= usize::MAX + 1 && #[trigger] inputs_complete(self.nodes@, n);
                &&& !done ==> message_error(r, "A lookup table was not verified"@)
                &&& done && !known ==> message_error(
                    r,
                    "No claim found for an input of the model"@,
                )
                &&& done && known && !complete ==> message_error(
                    r,
                    "The inputs of the model are not numbered without gaps"@,
                )
                &&& done && known && complete ==> exists|c: Seq<ClaimView>| #[trigger]
                    self.is_choice(c) && self.finished(c, r)
            }),
    {
        if self.tables_done < self.tables.len() {
            return message_err("A lookup table was not verified");
        }
        let c = match input_claims(&self.nodes, &self.claims) {
            Ok(c) => c,
            Err(e) => {
                return Err(e);
            },
        };
        let count = self.input.len();
        proof {
            assert(self.input@.len() == count);
            assert(self.is_choice(cviews(c@)));
            lemma_choice_fits(*self, cviews(c@));
        }
        let checked = check_inputs(self.input.as_slice(), c.as_slice());
        if checked.is_err() {
            proof {
                lemma_finished_early(*self, cviews(c@), checked);
                assert(self.is_choice(cviews(c@)) && self.finished(cviews(c@), checked));
            }
            return checked;
        }
        let r = check_fractions(self.numerators.as_slice(), self.denominators.as_slice());
        proof {
            lemma_finished(*self, cviews(c@), checked, r);
            assert(self.is_choice(cviews(c@)) && self.finished(cviews(c@), r));
        }
        r
    }

    /// What the end of a verification comes to on the given claims about the inputs of the model.
    pub open spec fn finished(self, c: Seq<ClaimView>, r: Result<(), VerifierError>) -> bool {
        let inputs = tviews(self.input@);
        let n = shorter(inputs.len(), c.len());
        if exists|i: int| 0 <= i < n && !input_valid(#[trigger] inputs[i], c[i]) {
            r is Err && inputs_checked(inputs, c, r)
        } else {
            fractions_checked(fviews(self.numerators@), fviews(self.denominators@), r)
        }
    }
}

/// The claims that are chosen go with the inputs.
proof fn lemma_choice_fits<S, C>(v: Verifier<S, C>, c: Seq<ClaimView>)
    requires
        v.input@.len() <= usize::MAX,
        v.inputs_fit(),
        v.is_choice(c),
    ensures
        forall|i: int|
            0 <= i < v.input@.len() && i < c.len() ==> fits_point(
                #[trigger] tviews(v.input@)[i],
                c[i].point,
            ),
{
    let m = claim_views(v.claims@);
    assert forall|i: int| 0 <= i < v.input@.len() && i < c.len() implies fits_point(
        #[trigger] tviews(v.input@)[i],
        c[i].point,
    ) by {
        let k = i as usize;
        assert(is_input_claim(v.nodes@, m, k, c[k as int]));
        let (id, j) = choose|id: NodeId, j: int| #[trigger]
            takes_input(v.nodes@, id, j, k) && claim_known(m, id, j) && c[k as int] == m[id][j];
        assert(takes_input(v.nodes@, id, j, k));
        assert(fits_point(v.input@[k as int]@, m[id][j].point));
    }
}

/// A verification that ends at a false claim about an input.
proof fn lemma_finished_early<S, C>(
    v: Verifier<S, C>,
    c: Seq<ClaimView>,
    r: Result<(), VerifierError>,
)
    requires
        inputs_checked(tviews(v.input@), c, r),
        r is Err,
    ensures
        v.finished(c, r),
{
    let inputs = tviews(v.input@);
    let n = shorter(inputs.len(), c.len());
    let i = choose|i: int| 0 <= i < n && !input_valid(#[trigger] inputs[i], c[i]);
    assert(!input_valid(inputs[i], c[i]));
}

/// A verification that ends with the fractions of the lookups.
proof fn lemma_finished<S, C>(
    v: Verifier<S, C>,
    c: Seq<ClaimView>,
    checked: Result<(), VerifierError>,
    r: Result<(), VerifierError>,
)
    requires
        inputs_checked(tviews(v.input@), c, checked),
        checked is Ok,
        fractions_checked(fviews(v.numerators@), fviews(v.denominators@), r),
    ensures
        v.finished(c, r),
{
    let inputs = tviews(v.input@);
    let n = shorter(inputs.len(), c.len());
    assert forall|i: int| 0 <= i < n implies input_valid(#[trigger] inputs[i], c[i]) by {}
}

/// Where no denominator of the lookups is zero, a verification ends well exactly where all claims
/// about the inputs are true and the fractions of the lookups add up to zero.
pub proof fn law_accepted<S, C>(v: Verifier<S, C>, c: Seq<ClaimView>, r: Result<(), VerifierError>)
    requires
        v.finished(c, r),
        v.numerators@.len() == v.denominators@.len(),
        forall|i: int|
            0 <= i < v.denominators@.len() ==> #[trigger] fviews(v.denominators@)[i] != fzero(),
    ensures
        r is Ok <==> {
            &&& forall|i: int|
                0 <= i < v.input@.len() && i < c.len() ==> input_valid(
                    #[trigger] tviews(v.input@)[i],
                    c[i],
                )
            &&& fraction_sum(
                fviews(v.numerators@),
                fviews(v.denominators@),
                v.numerators@.len(),
            ) == fzero()
        },
{
    let nums = fviews(v.numerators@);
    let denoms = fviews(v.denominators@);
    let k = v.numerators@.len();
    lemma_fviews_fe(v.denominators@);
    law_fractions(nums, denoms, k);
}

} // verus!
