//! The shapes of all nodes of a model, told from those of its inputs.
use crate::iop::context::ShapeStep;
use crate::iop::error::{VerifierError, message_error};
use crate::layers::LayerCtx;
use crate::layers::provable::{Edge, NodeCtx, NodeId, PaddingMode};
use crate::shape::shapes;
use crate::text::{append_decimal, decimal};
use std::collections::HashMap;
use vstd::prelude::*;
use vstd::slice::slice_to_vec;
use vstd::string::*;

verus! {

/// The shapes of a step.
#[verifier::ext_equal]
pub struct ShapeStepView {
    pub unpadded_input: Seq<Seq<usize>>,
    pub padded_input: Seq<Seq<usize>>,
    pub unpadded_output: Seq<Seq<usize>>,
    pub padded_output: Seq<Seq<usize>>,
}

impl View for ShapeStep {
    type V = ShapeStepView;

    open spec fn view(&self) -> ShapeStepView {
        ShapeStepView {
            unpadded_input: shapes(self.unpadded_input_shape@),
            padded_input: shapes(self.padded_input_shape@),
            unpadded_output: shapes(self.unpadded_output_shape@),
            padded_output: shapes(self.padded_output_shape@),
        }
    }
}

/// The shapes of steps, by node.
pub open spec fn step_views(m: Map<NodeId, ShapeStep>) -> Map<NodeId, ShapeStepView> {
    m.map_values(|s: ShapeStep| s@)
}

/// The shapes of the inputs of a model, as given and as expected.
pub struct InputShapes {
    pub unpadded: Seq<Seq<usize>>,
    pub padded: Seq<Seq<usize>>,
}

/// The shapes of what an input takes, unpadded and padded, or why there are none.
pub open spec fn edge_shapes(
    m: Map<NodeId, ShapeStepView>,
    x: InputShapes,
    e: Edge,
) -> Result<(Seq<usize>, Seq<usize>), Seq<char>> {
    match e.node {
        Some(n) => if !m.contains_key(n) {
            Err("Shapes for node "@ + decimal(n as nat) + " not found"@)
        } else if e.index >= m[n].unpadded_output.len() {
            Err(
                "Required input "@ + decimal(e.index as nat) + " for node "@ + decimal(n as nat)
                    + ", but there are only "@ + decimal(m[n].unpadded_output.len())
                    + " inputs shapes"@,
            )
        } else {
            Ok((m[n].unpadded_output[e.index as int], m[n].padded_output[e.index as int]))
        },
        None => if e.index >= x.unpadded.len() {
            Err(
                "Required input "@ + decimal(e.index as nat)
                    + " of model, but there are only "@ + decimal(x.unpadded.len())
                    + " inputs shapes"@,
            )
        } else if e.index >= x.padded.len() {
            Err(
                "Required input "@ + decimal(e.index as nat)
                    + " of model, but there are only "@ + decimal(x.padded.len()) + " inputs"@,
            )
        } else {
            Ok((x.unpadded[e.index as int], x.padded[e.index as int]))
        },
    }
}

/// The shapes of what all inputs take, or why the first without any has none.
pub open spec fn all_edge_shapes(
    m: Map<NodeId, ShapeStepView>,
    x: InputShapes,
    edges: Seq<Edge>,
) -> Result<(Seq<Seq<usize>>, Seq<Seq<usize>>), Seq<char>>
    decreases edges.len(),
{
    if edges.len() == 0 {
        Ok((Seq::empty(), Seq::empty()))
    } else {
        match all_edge_shapes(m, x, edges.drop_last()) {
            Err(e) => Err(e),
            Ok((u, p)) => match edge_shapes(m, x, edges.last()) {
                Err(e) => Err(e),
                Ok((a, b)) => Ok((u.push(a), p.push(b))),
            },
        }
    }
}

/// The shapes of a node, or why there are none.
pub open spec fn node_shapes(
    m: Map<NodeId, ShapeStepView>,
    x: InputShapes,
    id: NodeId,
    node: NodeCtx,
) -> Result<ShapeStepView, Seq<char>> {
    match all_edge_shapes(m, x, node.inputs@) {
        Err(e) => Err(e),
        Ok((u, p)) => if node.ctx.shapes_ok(u, PaddingMode::NoPadding) && node.ctx.shapes_ok(
            p,
            PaddingMode::Padding,
        ) {
            Ok(
                ShapeStepView {
                    unpadded_input: u,
                    padded_input: p,
                    unpadded_output: node.ctx.shapes_of(u, PaddingMode::NoPadding),
                    padded_output: node.ctx.shapes_of(p, PaddingMode::Padding),
                },
            )
        } else {
            Err("Node "@ + decimal(id as nat) + " cannot have inputs of the given shapes"@)
        },
    }
}

/// The shapes of the first `k` nodes, or why there are none.
pub open spec fn model_shapes(
    nodes: Map<NodeId, NodeCtx>,
    order: Seq<NodeId>,
    k: nat,
    x: InputShapes,
) -> Result<Map<NodeId, ShapeStepView>, Seq<char>>
    decreases k,
{
    if k == 0 {
        Ok(Map::empty())
    } else {
        match model_shapes(nodes, order, (k - 1) as nat, x) {
            Err(e) => Err(e),
            Ok(m) => match node_shapes(m, x, order[k - 1], nodes[order[k - 1]]) {
                Err(e) => Err(e),
                Ok(s) => Ok(m.insert(order[k - 1], s)),
            },
        }
    }
}

/// As many outputs unpadded as padded.
spec fn even(m: Map<NodeId, ShapeStepView>) -> bool {
    forall|n: NodeId| #[trigger]
        m.contains_key(n) ==> m[n].unpadded_output.len() == m[n].padded_output.len()
}

proof fn lemma_even(m: Map<NodeId, ShapeStepView>, x: InputShapes, edges: Seq<Edge>)
    ensures
        all_edge_shapes(m, x, edges) matches Ok((u, p)) ==> u.len() == edges.len() && p.len()
            == edges.len(),
    decreases edges.len(),
{
    if edges.len() > 0 {
        lemma_even(m, x, edges.drop_last());
    }
}

/// Where a prefix of the inputs fails, all of them do, for the same reason.
proof fn lemma_prefix_fails(
    m: Map<NodeId, ShapeStepView>,
    x: InputShapes,
    edges: Seq<Edge>,
    k: int,
)
    requires
        0 <= k <= edges.len(),
        all_edge_shapes(m, x, edges.take(k)) is Err,
    ensures
        all_edge_shapes(m, x, edges) == all_edge_shapes(m, x, edges.take(k)),
    decreases edges.len() - k,
{
    if k < edges.len() {
        assert(edges.take(k + 1).drop_last() =~= edges.take(k));
        lemma_prefix_fails(m, x, edges, k + 1);
    } else {
        assert(edges.take(k) =~= edges);
    }
}

/// Where the shapes of the first nodes fail, all do, for the same reason.
proof fn lemma_order_fails(
    nodes: Map<NodeId, NodeCtx>,
    order: Seq<NodeId>,
    k: nat,
    n: nat,
    x: InputShapes,
)
    requires
        k <= n,
        model_shapes(nodes, order, k, x) is Err,
    ensures
        model_shapes(nodes, order, n, x) == model_shapes(nodes, order, k, x),
    decreases n - k,
{
    if k < n {
        lemma_order_fails(nodes, order, k, (n - 1) as nat, x);
    }
}

fn find_edge_shapes(
    steps: &HashMap<NodeId, ShapeStep>,
    unpadded: &[Vec<usize>],
    padded: &[Vec<usize>],
    e: Edge,
) -> (r: Result<(Vec<usize>, Vec<usize>), String>)
    requires
        even(step_views(steps@)),
    ensures
        ({
            let x = InputShapes { unpadded: shapes(unpadded@), padded: shapes(padded@) };
            match edge_shapes(step_views(steps@), x, e) {
                Ok((a, b)) => r is Ok && (r->Ok_0).0@ == a && (r->Ok_0).1@ == b,
                Err(m) => r is Err && r->Err_0@ == m,
            }
        }),
{
    match e.node {
        Some(n) => match steps.get(&n) {
            None => {
                let mut s = String::from_str("Shapes for node ");
                append_decimal(&mut s, n);
                s.append(" not found");
                Err(s)
            },
            Some(step) => {
                let count = step.unpadded_output_shape.len();
                proof {
                    assert(step_views(steps@).contains_key(n));
                    assert(step_views(steps@)[n] == step@);
                    assert(step@.unpadded_output.len() == count);
                    assert(step@.padded_output.len() == step.padded_output_shape@.len());
                }
                if e.index >= count {
                    let mut s = String::from_str("Required input ");
                    append_decimal(&mut s, e.index);
                    s.append(" for node ");
                    append_decimal(&mut s, n);
                    s.append(", but there are only ");
                    append_decimal(&mut s, count);
                    s.append(" inputs shapes");
                    Err(s)
                } else {
                    Ok(
                        (
                            slice_to_vec(step.unpadded_output_shape[e.index].as_slice()),
                            slice_to_vec(step.padded_output_shape[e.index].as_slice()),
                        ),
                    )
                }
            },
        },
        None => {
            let count = unpadded.len();
            if e.index >= count {
                let mut s = String::from_str("Required input ");
                append_decimal(&mut s, e.index);
                s.append(" of model, but there are only ");
                append_decimal(&mut s, count);
                s.append(" inputs shapes");
                Err(s)
            } else if e.index >= padded.len() {
                let mut s = String::from_str("Required input ");
                append_decimal(&mut s, e.index);
                s.append(" of model, but there are only ");
                append_decimal(&mut s, padded.len());
                s.append(" inputs");
                Err(s)
            } else {
                Ok(
                    (
                        slice_to_vec(unpadded[e.index].as_slice()),
                        slice_to_vec(padded[e.index].as_slice()),
                    ),
                )
            }
        },
    }
}

fn accepts_all(ctx: &LayerCtx, s: &[Vec<usize>], mode: PaddingMode) -> (r: bool)
    ensures
        r == ctx.shapes_ok(shapes(s@), mode),
{
    let mut i: usize = 0;
    while i < s.len()
        invariant
            i <= s@.len(),
            forall|j: int| 0 <= j < i ==> ctx.shape_ok(#[trigger] shapes(s@)[j], mode),
        decreases s@.len() - i,
    {
        assert(shapes(s@)[i as int] == s@[i as int]@);
        if !ctx.accepts_shape(s[i].as_slice(), mode) {
            assert(!ctx.shape_ok(shapes(s@)[i as int], mode));
            return false;
        }
        i = i + 1;
    }
    true
}

fn find_node_shapes(
    steps: &HashMap<NodeId, ShapeStep>,
    unpadded: &[Vec<usize>],
    padded: &[Vec<usize>],
    id: NodeId,
    node: &NodeCtx,
) -> (r: Result<ShapeStep, String>)
    requires
        even(step_views(steps@)),
    ensures
        ({
            let x = InputShapes { unpadded: shapes(unpadded@), padded: shapes(padded@) };
            match node_shapes(step_views(steps@), x, id, *node) {
                Ok(s) => r is Ok && r->Ok_0@ == s && s.unpadded_output.len()
                    == s.padded_output.len(),
                Err(m) => r is Err && r->Err_0@ == m,
            }
        }),
{
    let ghost m = step_views(steps@);
    let ghost x = InputShapes { unpadded: shapes(unpadded@), padded: shapes(padded@) };
    let mut us: Vec<Vec<usize>> = Vec::new();
    let mut ps: Vec<Vec<usize>> = Vec::new();
    let mut i: usize = 0;
    proof {
        assert(shapes(us@) =~= Seq::<Seq<usize>>::empty());
        assert(shapes(ps@) =~= Seq::<Seq<usize>>::empty());
    }
    while i < node.inputs.len()
        invariant
            m == step_views(steps@),
            x == (InputShapes { unpadded: shapes(unpadded@), padded: shapes(padded@) }),
            even(m),
            i <= node.inputs@.len(),
            all_edge_shapes(m, x, node.inputs@.take(i as int)) == Ok::<
                (Seq<Seq<usize>>, Seq<Seq<usize>>),
                Seq<char>,
            >((shapes(us@), shapes(ps@))),
        decreases node.inputs@.len() - i,
    {
        proof {
            assert(node.inputs@.take(i + 1).drop_last() =~= node.inputs@.take(i as int));
            assert(node.inputs@.take(i + 1).last() == node.inputs@[i as int]);
        }
        match find_edge_shapes(steps, unpadded, padded, node.inputs[i]) {
            Ok((u, p)) => {
                let ghost (bu, bp) = (shapes(us@), shapes(ps@));
                us.push(u);
                ps.push(p);
                assert(shapes(us@) =~= bu.push(u@));
                assert(shapes(ps@) =~= bp.push(p@));
            },
            Err(s) => {
                proof {
                    lemma_prefix_fails(m, x, node.inputs@, i + 1);
                }
                return Err(s);
            },
        }
        i = i + 1;
    }
    proof {
        assert(node.inputs@.take(i as int) =~= node.inputs@);
        lemma_even(m, x, node.inputs@);
    }
    if accepts_all(&node.ctx, us.as_slice(), PaddingMode::NoPadding) && accepts_all(
        &node.ctx,
        ps.as_slice(),
        PaddingMode::Padding,
    ) {
        Ok(node.ctx.shape_step(us.as_slice(), ps.as_slice()))
    } else {
        let mut s = String::from_str("Node ");
        append_decimal(&mut s, id);
        s.append(" cannot have inputs of the given shapes");
        Err(s)
    }
}

/// The shapes of all nodes, told from those of the inputs, in an order in which each node stands
/// behind what its inputs come from. Fails at the first input that takes something of which no
/// shape is known, or that has a shape that the layer cannot take.
pub fn shape_steps(
    nodes: &HashMap<NodeId, NodeCtx>,
    order: &[NodeId],
    unpadded: &[Vec<usize>],
    padded: &[Vec<usize>],
) -> (r: Result<HashMap<NodeId, ShapeStep>, VerifierError>)
    requires
        forall|i: int| 0 <= i < order@.len() ==> nodes@.contains_key(#[trigger] order@[i]),
    ensures
        ({
            let x = InputShapes { unpadded: shapes(unpadded@), padded: shapes(padded@) };
            match model_shapes(nodes@, order@, order@.len(), x) {
                Ok(m) => r is Ok && step_views(r->Ok_0@) == m,
                Err(m) => message_error(r, m),
            }
        }),
{
    let ghost x = InputShapes { unpadded: shapes(unpadded@), padded: shapes(padded@) };
    let mut steps: HashMap<NodeId, ShapeStep> = HashMap::new();
    let mut k: usize = 0;
    proof {
        assert(step_views(steps@) =~= Map::empty());
    }
    while k < order.len()
        invariant
            x == (InputShapes { unpadded: shapes(unpadded@), padded: shapes(padded@) }),
            forall|i: int| 0 <= i < order@.len() ==> nodes@.contains_key(#[trigger] order@[i]),
            k <= order@.len(),
            even(step_views(steps@)),
            model_shapes(nodes@, order@, k as nat, x) == Ok::<
                Map<NodeId, ShapeStepView>,
                Seq<char>,
            >(step_views(steps@)),
        decreases order@.len() - k,
    {
        let id = order[k];
        assert(nodes@.contains_key(order@[k as int]));
        if let Some(node) = nodes.get(&id) {
            match find_node_shapes(&steps, unpadded, padded, id, node) {
                Ok(step) => {
                    let ghost before = step_views(steps@);
                    steps.insert(id, step);
                    assert(step_views(steps@) =~= before.insert(id, step@));
                },
                Err(s) => {
                    proof {
                        lemma_order_fails(nodes@, order@, (k + 1) as nat, order@.len(), x);
                    }
                    return Err(VerifierError::Message(s));
                },
            }
        }
        k = k + 1;
    }
    Ok(steps)
}

} // verus!
