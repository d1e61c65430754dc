//! What a verification that ends well has found.
use crate::claim::{Claim, ClaimView};
use crate::field::{
    Fe, GoldilocksExt2, all_fe, finv, fmul, fprod, fsum, fviews, fzero, lemma_fmul_zero,
    lemma_fviews_fe,
};
use crate::iop::claims::wire_claim;
use crate::iop::error::VerifierError;
use crate::iop::fractions::{fractions_checked, law_fractions};
use crate::iop::session::{Verifier, started};
use crate::iop::shapes::{InputShapes, ShapeStepView, all_edge_shapes, model_shapes, node_shapes};
use crate::iop::verify::{
    all_fractions, input_valid, inputs_checked, nodes_fractions, proof_missing, proofs_there,
    table_checked, table_fractions,
};
use crate::layers::{LayerProof, LogUpProof};
use crate::layers::activation::Activation;
use crate::layers::convolution::Convolution;
use crate::layers::dense::Dense;
use crate::layers::pooling::Pooling;
use crate::layers::provable::{Edge, NodeCtx, NodeId, PaddingMode};
use crate::layers::requant::Requant;
use crate::mle::mle;
use crate::tensor::{TensorView, tviews};
use vstd::arithmetic::power2::*;
use vstd::prelude::*;

verus! {

/// The fractions of the lookups are accepted exactly where no denominator is zero and the
/// fractions add up to zero.
pub proof fn law_fractions_accepted(
    nums: Seq<Fe>,
    denoms: Seq<Fe>,
    r: Result<(), VerifierError>,
)
    requires
        fractions_checked(nums, denoms, r),
        nums.len() == denoms.len(),
        all_fe(denoms),
    ensures
        r is Ok <==> {
            &&& forall|i: int| 0 <= i < denoms.len() ==> #[trigger] denoms[i] != fzero()
            &&& fsum(nums.len(), |i: int| fmul(nums[i], finv(denoms[i]))) == fzero()
        },
{
    let k = nums.len();
    let f = |i: int| denoms[i];
    if forall|i: int| 0 <= i < denoms.len() ==> #[trigger] denoms[i] != fzero() {
        law_fractions(nums, denoms, k);
    } else {
        let i = choose|i: int| 0 <= i < denoms.len() && #[trigger] denoms[i] == fzero();
        lemma_fprod_zero(k, i, f);
    }
}

/// A product with a factor of zero is zero.
proof fn lemma_fprod_zero(n: nat, i: int, f: spec_fn(int) -> Fe)
    requires
        0 <= i < n,
        f(i) == fzero(),
    ensures
        fprod(n, f) == fzero(),
    decreases n,
{
    let m = (n - 1) as nat;
    if i == n - 1 {
        lemma_fmul_zero(fprod(m, f));
    } else {
        lemma_fprod_zero(m, i, f);
        lemma_fmul_zero(f(n - 1));
    }
}

/// The claims about the inputs are accepted exactly where each tells the value, at its point, of
/// the multilinear extension of its input.
pub proof fn law_inputs_accepted(
    inputs: Seq<TensorView<GoldilocksExt2>>,
    claims: Seq<ClaimView>,
    r: Result<(), VerifierError>,
)
    requires
        inputs_checked(inputs, claims, r),
        inputs.len() == claims.len(),
    ensures
        r is Ok <==> forall|i: int|
            0 <= i < inputs.len() ==> mle(fviews((#[trigger] inputs[i]).data), claims[i].point)
                == claims[i].eval,
{
    if r is Ok {
        assert forall|i: int| 0 <= i < inputs.len() implies mle(
            fviews((#[trigger] inputs[i]).data),
            claims[i].point,
        ) == claims[i].eval by {
            assert(input_valid(inputs[i], claims[i]));
        }
    } else {
        let i = choose|i: int| 0 <= i < inputs.len() && !input_valid(#[trigger] inputs[i], claims[i]);
        assert(mle(fviews(inputs[i].data), claims[i].point) != claims[i].eval);
    }
}

/// A verification that ends well has found the claims about the inputs true, the fractions of the
/// lookups defined, and their sum zero; and one that finds this ends well.
pub proof fn law_verification_finished<S, C>(
    v: Verifier<S, C>,
    c: Seq<ClaimView>,
    r: Result<(), VerifierError>,
)
    requires
        v.finished(c, r),
        v.input@.len() == c.len(),
        v.numerators@.len() == v.denominators@.len(),
    ensures
        r is Ok <==> {
            &&& forall|i: int|
                0 <= i < c.len() ==> mle(fviews(v.input@[i]@.data), (#[trigger] c[i]).point)
                    == c[i].eval
            &&& forall|i: int|
                0 <= i < v.denominators@.len() ==> (#[trigger] v.denominators@[i])@ != fzero()
            &&& fsum(
                v.numerators@.len(),
                |i: int| fmul(fviews(v.numerators@)[i], finv(fviews(v.denominators@)[i])),
            ) == fzero()
        },
{
    let inputs = tviews(v.input@);
    let nums = fviews(v.numerators@);
    let denoms = fviews(v.denominators@);
    lemma_fviews_fe(v.denominators@);
    if exists|i: int| 0 <= i < c.len() && !input_valid(#[trigger] inputs[i], c[i]) {
        let i = choose|i: int| 0 <= i < c.len() && !input_valid(#[trigger] inputs[i], c[i]);
        assert(mle(fviews(v.input@[i]@.data), c[i].point) != c[i].eval);
    } else {
        law_fractions_accepted(nums, denoms, r);
        assert forall|i: int| 0 <= i < c.len() implies mle(
            fviews(v.input@[i]@.data),
            (#[trigger] c[i]).point,
        ) == c[i].eval by {
            assert(input_valid(inputs[i], c[i]));
        }
        if forall|i: int|
            0 <= i < v.denominators@.len() ==> (#[trigger] v.denominators@[i])@ != fzero() {
            assert forall|i: int| 0 <= i < denoms.len() implies #[trigger] denoms[i]
                != fzero() by {
                assert(v.denominators@[i]@ != fzero());
            }
        } else {
            let i = choose|i: int|
                0 <= i < v.denominators@.len() && (#[trigger] v.denominators@[i])@ == fzero();
            assert(denoms[i] == fzero());
        }
    }
}

/// The claims about the columns of a table are accepted exactly where there is one for each
/// column, behind the first claim, and each tells the expected value.
pub proof fn law_table_accepted(
    claims: Seq<Claim<GoldilocksExt2>>,
    expected: Seq<GoldilocksExt2>,
    r: Result<(), VerifierError>,
)
    requires
        table_checked(claims, expected, r),
    ensures
        r is Ok <==> claims.len() == expected.len() + 1 && forall|i: int|
            0 <= i < expected.len() ==> claims[i + 1].eval@ == (#[trigger] expected[i])@,
{
    if claims.len() == expected.len() + 1 {
        if r is Ok {
            assert forall|i: int| 0 <= i < expected.len() implies claims[i + 1].eval@ == (
            #[trigger] expected[i])@ by {
                assert(claims[i + 1]@.eval == expected[i]@);
            }
        } else {
            let i = choose|i: int|
                0 <= i < expected.len() && claims[i + 1]@.eval != (#[trigger] expected[i])@;
            assert(claims[i + 1].eval@ != expected[i]@);
        }
    }
}

/// The claim about an output that goes to one place is the claim about the input of the node
/// there, or about the output of the model there. About an output that goes to several places, or
/// to none, there is no claim.
pub proof fn law_wire_claim(
    claims: Map<NodeId, Seq<ClaimView>>,
    out_claims: Seq<ClaimView>,
    wire: Seq<Edge>,
    c: ClaimView,
)
    ensures
        wire_claim(claims, out_claims, wire) == Some(c) <==> wire.len() == 1 && match wire[0].node {
            Some(n) => claims.contains_key(n) && wire[0].index < claims[n].len()
                && claims[n][wire[0].index as int] == c,
            None => wire[0].index < out_claims.len() && out_claims[wire[0].index as int] == c,
        },
{
}

/// The shapes that an edge brings: those of the output of the node that it names, or of the input
/// of the model.
pub open spec fn brings_shapes(
    m: Map<NodeId, ShapeStepView>,
    x: InputShapes,
    e: Edge,
    unpadded: Seq<usize>,
    padded: Seq<usize>,
) -> bool {
    match e.node {
        Some(n) => {
            &&& m.contains_key(n)
            &&& e.index < m[n].unpadded_output.len()
            &&& unpadded == m[n].unpadded_output[e.index as int]
            &&& padded == m[n].padded_output[e.index as int]
        },
        None => {
            &&& e.index < x.unpadded.len()
            &&& e.index < x.padded.len()
            &&& unpadded == x.unpadded[e.index as int]
            &&& padded == x.padded[e.index as int]
        },
    }
}

/// The shapes of a node are right: its inputs have the shapes that its edges bring, and its
/// outputs those that its layer tells from them.
pub open spec fn shapes_right(
    m: Map<NodeId, ShapeStepView>,
    x: InputShapes,
    node: NodeCtx,
    s: ShapeStepView,
) -> bool {
    let edges = node.inputs@;
    &&& s.unpadded_input.len() == edges.len()
    &&& s.padded_input.len() == edges.len()
    &&& forall|i: int|
        0 <= i < edges.len() ==> brings_shapes(
            m,
            x,
            #[trigger] edges[i],
            s.unpadded_input[i],
            s.padded_input[i],
        )
    &&& s.unpadded_output == Seq::new(
        edges.len(),
        |i: int| node.ctx.shape_of(s.unpadded_input[i], PaddingMode::NoPadding),
    )
    &&& s.padded_output == Seq::new(
        edges.len(),
        |i: int| node.ctx.shape_of(s.padded_input[i], PaddingMode::Padding),
    )
}

proof fn lemma_all_edge_shapes(m: Map<NodeId, ShapeStepView>, x: InputShapes, edges: Seq<Edge>)
    ensures
        all_edge_shapes(m, x, edges) matches Ok((u, p)) ==> {
            &&& u.len() == edges.len()
            &&& p.len() == edges.len()
            &&& forall|i: int|
                0 <= i < edges.len() ==> brings_shapes(m, x, #[trigger] edges[i], u[i], p[i])
        },
    decreases edges.len(),
{
    if edges.len() > 0 {
        let t = edges.drop_last();
        lemma_all_edge_shapes(m, x, t);
        if let Ok((u, p)) = all_edge_shapes(m, x, edges) {
            assert forall|i: int| 0 <= i < edges.len() implies brings_shapes(
                m,
                x,
                #[trigger] edges[i],
                u[i],
                p[i],
            ) by {
                if i < t.len() {
                    assert(t[i] == edges[i]);
                    let (u0, p0) = all_edge_shapes(m, x, t)->Ok_0;
                    assert(brings_shapes(m, x, t[i], u0[i], p0[i]));
                    assert(u[i] == u0[i] && p[i] == p0[i]);
                }
            }
        }
    }
}

/// The shapes that a verification starts with are right for every node.
pub proof fn law_model_shapes(
    nodes: Map<NodeId, NodeCtx>,
    order: Seq<NodeId>,
    k: nat,
    x: InputShapes,
)
    requires
        order.no_duplicates(),
        k <= order.len(),
    ensures
        model_shapes(nodes, order, k, x) matches Ok(m) ==> {
            &&& forall|n: NodeId| #[trigger] m.contains_key(n) <==> order.take(k as int).contains(n)
            &&& forall|j: int|
                0 <= j < k ==> shapes_right(m, x, nodes[#[trigger] order[j]], m[order[j]])
        },
    decreases k,
{
    if k > 0 {
        let p = (k - 1) as nat;
        law_model_shapes(nodes, order, p, x);
        if let Ok(m) = model_shapes(nodes, order, k, x) {
            let before = model_shapes(nodes, order, p, x)->Ok_0;
            let id = order[k - 1];
            lemma_all_edge_shapes(before, x, nodes[id].inputs@);
            assert(!before.contains_key(id)) by {
                if order.take(p as int).contains(id) {
                    let j = choose|j: int|
                        0 <= j < order.take(p as int).len() && order.take(p as int)[j] == id;
                    assert(order[j] == order[k - 1]);
                }
            }
            assert(order.take(k as int) =~= order.take(p as int).push(id));
            assert forall|n: NodeId| #[trigger] m.contains_key(n) <==> order.take(
                k as int,
            ).contains(n) by {
                let all = order.take(k as int);
                if order.take(p as int).contains(n) {
                    let j = choose|j: int|
                        0 <= j < order.take(p as int).len() && order.take(p as int)[j] == n;
                    assert(all[j] == n);
                }
                if n == id {
                    assert(all[k - 1] == n);
                }
                if all.contains(n) && n != id {
                    let j = choose|j: int| 0 <= j < all.len() && all[j] == n;
                    assert(order.take(p as int)[j] == n);
                }
            }
            assert forall|j: int| 0 <= j < k implies shapes_right(
                m,
                x,
                nodes[#[trigger] order[j]],
                m[order[j]],
            ) by {
                let node = nodes[order[j]];
                let s = m[order[j]];
                if j < p {
                    assert(shapes_right(before, x, nodes[order[j]], before[order[j]]));
                    assert(order.take(p as int)[j] == order[j]);
                    assert(before.contains_key(order[j]));
                    assert forall|i: int| 0 <= i < node.inputs@.len() implies brings_shapes(
                        m,
                        x,
                        #[trigger] node.inputs@[i],
                        s.unpadded_input[i],
                        s.padded_input[i],
                    ) by {
                        assert(brings_shapes(
                            before,
                            x,
                            node.inputs@[i],
                            s.unpadded_input[i],
                            s.padded_input[i],
                        ));
                    }
                } else {
                    assert forall|i: int| 0 <= i < node.inputs@.len() implies brings_shapes(
                        m,
                        x,
                        #[trigger] node.inputs@[i],
                        s.unpadded_input[i],
                        s.padded_input[i],
                    ) by {
                        assert(brings_shapes(
                            before,
                            x,
                            node.inputs@[i],
                            s.unpadded_input[i],
                            s.padded_input[i],
                        ));
                    }
                    assert(s.unpadded_output =~= Seq::new(
                        node.inputs@.len(),
                        |i: int| node.ctx.shape_of(s.unpadded_input[i], PaddingMode::NoPadding),
                    ));
                    assert(s.padded_output =~= Seq::new(
                        node.inputs@.len(),
                        |i: int| node.ctx.shape_of(s.padded_input[i], PaddingMode::Padding),
                    ));
                }
            }
        }
    }
}

/// A verification starts only where every node that needs a proof has one.
pub proof fn law_started_proofs<S, C>(
    nodes: Map<NodeId, NodeCtx>,
    steps: Map<NodeId, LayerProof<S, C>>,
    x: InputShapes,
    order: Seq<NodeId>,
    r: Result<Verifier<S, C>, VerifierError>,
    i: int,
)
    requires
        started(nodes, steps, x, order, r),
        r is Ok,
        0 <= i < order.len(),
    ensures
        nodes[order[i]].ctx is Dense || nodes[order[i]].ctx is Convolution || nodes[order[i]].ctx
            is Activation || nodes[order[i]].ctx is Requant || nodes[order[i]].ctx is Pooling
            ==> steps.contains_key(order[i]),
{
    assert(proofs_there(nodes, steps, order, order.len() as int));
    assert(!proof_missing(nodes, steps, order[i]));
}

/// The fractions of node `i` in the order stand, one after the other, among those of all nodes.
pub proof fn law_node_fractions<S, C>(
    nodes: Map<NodeId, NodeCtx>,
    steps: Map<NodeId, LayerProof<S, C>>,
    order: Seq<NodeId>,
    k: nat,
    i: int,
) -> (at: (int, int))
    requires
        0 <= i < k <= order.len(),
        nodes[order[i]].ctx.provable(),
        steps[order[i]].fractions() is Some,
    ensures
        ({
            let all = nodes_fractions(nodes, steps, order, k);
            let f = steps[order[i]].fractions()->0;
            &&& 0 <= at.0 && at.0 + f.0.len() <= all.0.len()
            &&& 0 <= at.1 && at.1 + f.1.len() <= all.1.len()
            &&& all.0.subrange(at.0, at.0 + f.0.len()) == f.0
            &&& all.1.subrange(at.1, at.1 + f.1.len()) == f.1
        }),
    decreases k,
{
    let p = nodes_fractions(nodes, steps, order, (k - 1) as nat);
    let all = nodes_fractions(nodes, steps, order, k);
    let f = steps[order[i]].fractions()->0;
    if i == k - 1 {
        assert(all.0.subrange(p.0.len() as int, (p.0.len() + f.0.len()) as int) =~= f.0);
        assert(all.1.subrange(p.1.len() as int, (p.1.len() + f.1.len()) as int) =~= f.1);
        (p.0.len() as int, p.1.len() as int)
    } else {
        let at = law_node_fractions(nodes, steps, order, (k - 1) as nat, i);
        assert(all.0.subrange(at.0, at.0 + f.0.len()) =~= p.0.subrange(at.0, at.0 + f.0.len()));
        assert(all.1.subrange(at.1, at.1 + f.1.len()) =~= p.1.subrange(at.1, at.1 + f.1.len()));
        at
    }
}

/// The fractions of table `i` stand, one after the other, among those of all tables.
pub proof fn law_table_fractions<S>(tables: Seq<LogUpProof<S>>, k: nat, i: int) -> (at: (int, int))
    requires
        0 <= i < k <= tables.len(),
    ensures
        ({
            let all = table_fractions(tables, k);
            let nums = fviews(tables[i].numerators@);
            let denoms = fviews(tables[i].denominators@);
            &&& 0 <= at.0 && at.0 + nums.len() <= all.0.len()
            &&& 0 <= at.1 && at.1 + denoms.len() <= all.1.len()
            &&& all.0.subrange(at.0, at.0 + nums.len()) == nums
            &&& all.1.subrange(at.1, at.1 + denoms.len()) == denoms
        }),
    decreases k,
{
    let p = table_fractions(tables, (k - 1) as nat);
    let all = table_fractions(tables, k);
    let f = (fviews(tables[i].numerators@), fviews(tables[i].denominators@));
    if i == k - 1 {
        assert(all.0.subrange(p.0.len() as int, (p.0.len() + f.0.len()) as int) =~= f.0);
        assert(all.1.subrange(p.1.len() as int, (p.1.len() + f.1.len()) as int) =~= f.1);
        (p.0.len() as int, p.1.len() as int)
    } else {
        let at = law_table_fractions(tables, (k - 1) as nat, i);
        assert(all.0.subrange(at.0, at.0 + f.0.len()) =~= p.0.subrange(at.0, at.0 + f.0.len()));
        assert(all.1.subrange(at.1, at.1 + f.1.len()) =~= p.1.subrange(at.1, at.1 + f.1.len()));
        at
    }
}

/// The fractions of a verification are those of its nodes, and then those of its tables.
pub proof fn law_all_fractions<S, C>(
    nodes: Map<NodeId, NodeCtx>,
    steps: Map<NodeId, LayerProof<S, C>>,
    order: Seq<NodeId>,
    tables: Seq<LogUpProof<S>>,
)
    ensures
        ({
            let all = all_fractions(nodes, steps, order, tables);
            let n = nodes_fractions(nodes, steps, order, order.len());
            let t = table_fractions(tables, tables.len());
            &&& all.0.len() == n.0.len() + t.0.len()
            &&& all.1.len() == n.1.len() + t.1.len()
            &&& all.0.take(n.0.len() as int) == n.0
            &&& all.1.take(n.1.len() as int) == n.1
            &&& all.0.skip(n.0.len() as int) == t.0
            &&& all.1.skip(n.1.len() as int) == t.1
        }),
{
    let all = all_fractions(nodes, steps, order, tables);
    let n = nodes_fractions(nodes, steps, order, order.len());
    let t = table_fractions(tables, tables.len());
    assert(all.0.take(n.0.len() as int) =~= n.0);
    assert(all.1.take(n.1.len() as int) =~= n.1);
    assert(all.0.skip(n.0.len() as int) =~= t.0);
    assert(all.1.skip(n.1.len() as int) =~= t.1);
}

/// The layers with lookups leave the fractions of their lookups, a requantisation those of the
/// clamping first; the others leave none.
pub proof fn law_layer_fractions<S, C>(p: LayerProof<S, C>)
    ensures
        match p {
            LayerProof::Activation(a) => p.fractions() == Some(
                (fviews(a.lookup.numerators@), fviews(a.lookup.denominators@)),
            ),
            LayerProof::Pooling(a) => p.fractions() == Some(
                (fviews(a.lookup.numerators@), fviews(a.lookup.denominators@)),
            ),
            LayerProof::Requant(a) => {
                let f = p.fractions()->0;
                let n = a.clamping_lookup.numerators@.len() as int;
                let d = a.clamping_lookup.denominators@.len() as int;
                &&& p.fractions() is Some
                &&& f.0.take(n) == fviews(a.clamping_lookup.numerators@)
                &&& f.1.take(d) == fviews(a.clamping_lookup.denominators@)
                &&& f.0.skip(n) == fviews(a.shifted_lookup.numerators@)
                &&& f.1.skip(d) == fviews(a.shifted_lookup.denominators@)
            },
            _ => p.fractions() is None,
        },
{
    if let LayerProof::Requant(a) = p {
        let f = p.fractions()->0;
        let n = a.clamping_lookup.numerators@.len() as int;
        let d = a.clamping_lookup.denominators@.len() as int;
        assert(f.0.take(n) =~= fviews(a.clamping_lookup.numerators@));
        assert(f.1.take(d) =~= fviews(a.clamping_lookup.denominators@));
        assert(f.0.skip(n) =~= fviews(a.shifted_lookup.numerators@));
        assert(f.1.skip(d) =~= fviews(a.shifted_lookup.denominators@));
    }
}

proof fn lemma_edge_shapes_found(
    m: Map<NodeId, ShapeStepView>,
    x: InputShapes,
    edges: Seq<Edge>,
    u: Seq<Seq<usize>>,
    p: Seq<Seq<usize>>,
)
    requires
        u.len() == edges.len(),
        p.len() == edges.len(),
        forall|i: int| 0 <= i < edges.len() ==> brings_shapes(m, x, #[trigger] edges[i], u[i], p[i]),
    ensures
        all_edge_shapes(m, x, edges) == Ok::<
            (Seq<Seq<usize>>, Seq<Seq<usize>>),
            Seq<char>,
        >((u, p)),
    decreases edges.len(),
{
    if edges.len() == 0 {
        assert(u =~= Seq::empty());
        assert(p =~= Seq::empty());
    } else {
        let t = edges.drop_last();
        assert forall|i: int| 0 <= i < t.len() implies brings_shapes(
            m,
            x,
            #[trigger] t[i],
            u.drop_last()[i],
            p.drop_last()[i],
        ) by {
            assert(brings_shapes(m, x, edges[i], u[i], p[i]));
        }
        lemma_edge_shapes_found(m, x, t, u.drop_last(), p.drop_last());
        let last = edges.len() - 1;
        assert(brings_shapes(m, x, edges[last], u[last], p[last]));
        assert(u.drop_last().push(u[last]) =~= u);
        assert(p.drop_last().push(p[last]) =~= p);
    }
}

/// Where shapes can be given to the nodes, in their order, that are right, the shapes of the model
/// can be told, and they are these.
pub proof fn law_model_shapes_told(
    nodes: Map<NodeId, NodeCtx>,
    order: Seq<NodeId>,
    k: nat,
    x: InputShapes,
    s: Map<NodeId, ShapeStepView>,
)
    requires
        order.no_duplicates(),
        k <= order.len(),
        forall|j: int|
            0 <= j < k ==> shapes_right(s, x, nodes[#[trigger] order[j]], s[order[j]])
                && nodes[order[j]].ctx.shapes_ok(s[order[j]].unpadded_input, PaddingMode::NoPadding)
                && nodes[order[j]].ctx.shapes_ok(s[order[j]].padded_input, PaddingMode::Padding),
        forall|j: int, i: int|
            #![trigger nodes[order[j]].inputs@[i]]
            0 <= j < k && 0 <= i < nodes[order[j]].inputs@.len() ==> (
            nodes[order[j]].inputs@[i].node matches Some(n) ==> order.take(j).contains(n)),
    ensures
        model_shapes(nodes, order, k, x) matches Ok(m) && (forall|j: int|
            0 <= j < k ==> m[#[trigger] order[j]] == s[order[j]]) && (forall|n: NodeId| #[trigger]
            m.contains_key(n) <==> order.take(k as int).contains(n)),
    decreases k,
{
    law_model_shapes(nodes, order, k, x);
    if k > 0 {
        let p = (k - 1) as nat;
        law_model_shapes_told(nodes, order, p, x, s);
        let before = model_shapes(nodes, order, p, x)->Ok_0;
        let id = order[k - 1];
        let node = nodes[id];
        assert(shapes_right(s, x, nodes[order[k - 1]], s[order[k - 1]]));
        assert forall|i: int| 0 <= i < node.inputs@.len() implies brings_shapes(
            before,
            x,
            #[trigger] node.inputs@[i],
            s[id].unpadded_input[i],
            s[id].padded_input[i],
        ) by {
            assert(brings_shapes(
                s,
                x,
                node.inputs@[i],
                s[id].unpadded_input[i],
                s[id].padded_input[i],
            ));
            assert(nodes[order[k - 1]].inputs@[i] == node.inputs@[i]);
            if let Some(n) = node.inputs@[i].node {
                let earlier = order.take(k - 1);
                assert(earlier.contains(n));
                let j = choose|j: int| 0 <= j < earlier.len() && earlier[j] == n;
                assert(order[j] == n);
                assert(before[order[j]] == s[order[j]]);
                assert(order.take(p as int) =~= earlier);
                assert(before.contains_key(n));
            }
        }
        lemma_edge_shapes_found(
            before,
            x,
            node.inputs@,
            s[id].unpadded_input,
            s[id].padded_input,
        );
        let made = node_shapes(before, x, id, node)->Ok_0;
        assert(made.unpadded_output =~= s[id].unpadded_output);
        assert(made.padded_output =~= s[id].padded_output);
        assert(made =~= s[id]);
        let m = model_shapes(nodes, order, k, x)->Ok_0;
        assert forall|j: int| 0 <= j < k implies m[#[trigger] order[j]] == s[order[j]] by {
            if j < p {
                assert(before[order[j]] == s[order[j]]);
            }
        }
    }
}

} // verus!
