//! What a run of a model computes.
use crate::arith::npow2;
use crate::field::modulus;
use crate::laws::convolution::{correlation, law_convolution_layer};
use crate::layers::{layer_fault, layer_result};
use crate::layers::conv_laws::square_conv;
use crate::layers::convolution::{Convolution, can_adapt, is_adapted};
use crate::layers::provable::{Edge, Node, NodeId, PaddingMode};
use crate::model::Model;
use crate::model::trace::{
    InferenceTrace, StepView, all_known, has_output, input_values, is_model_output,
    is_output_node, lemma_depth, lemma_edge_depth, lemma_node_out, node_out, output_index,
    outputs_numbered, runs, step_input_is, trace_is,
};
use crate::quantization::Element;
use crate::shape::{pow2_shape, shapes};
use crate::tensor::{Tensor, TensorView, padded, tensor, tviews};
use vstd::prelude::*;

verus! {

/// The tensor that an edge brings in a run.
pub open spec fn incoming(
    input: Seq<Tensor<Element>>,
    t: InferenceTrace<Element>,
    e: Edge,
) -> TensorView<Element> {
    match e.node {
        Some(n) => t.steps@[n].outputs.outputs@[e.index as int]@,
        None => input[e.index as int]@,
    }
}

/// The shape without padding of the tensor that an edge brings in a run.
pub open spec fn incoming_shape(
    model: Model<Element>,
    t: InferenceTrace<Element>,
    e: Edge,
) -> Seq<usize> {
    match e.node {
        Some(n) => t.steps@[n].unpadded_output_shapes@[e.index as int]@,
        None => model.unpadded_input_shapes@[e.index as int]@,
    }
}

/// The edge brings something: an output of a node of the run, or an input of the model.
pub open spec fn brings(
    model: Model<Element>,
    input: Seq<Tensor<Element>>,
    t: InferenceTrace<Element>,
    e: Edge,
) -> bool {
    match e.node {
        Some(n) => {
            &&& t.steps@.contains_key(n)
            &&& e.index < t.steps@[n].outputs.outputs@.len()
            &&& e.index < t.steps@[n].unpadded_output_shapes@.len()
        },
        None => e.index < input.len() && e.index < model.unpadded_input_shapes@.len(),
    }
}

/// In a run each node has one step. Its inputs are the outputs of the nodes that its edges come
/// from, or the inputs of the model; its outputs are what its layer gives for these inputs.
pub proof fn law_run_step(
    model: Model<Element>,
    input: Seq<Tensor<Element>>,
    t: InferenceTrace<Element>,
    id: NodeId,
)
    requires
        trace_is(model.run_view(input), t),
        model.nodes@.contains_key(id),
    ensures
        ({
            let op = model.nodes@[id].operation;
            let edges = model.nodes@[id].inputs@;
            let step = t.steps@[id];
            let ins = Seq::new(edges.len(), |i: int| incoming(input, t, edges[i]));
            let shs = Seq::new(edges.len(), |i: int| incoming_shape(model, t, edges[i]));
            &&& t.steps@.contains_key(id)
            &&& t.steps@.dom() == model.nodes@.dom()
            &&& forall|i: int| 0 <= i < edges.len() ==> brings(model, input, t, #[trigger] edges[i])
            &&& tviews(step.inputs@) == ins
            &&& layer_fault(op, ins, shs) is None
            &&& tviews(step.outputs.outputs@) == layer_result(op, ins, shs)
            &&& op.shapes_ok(shs, PaddingMode::NoPadding)
            &&& shapes(step.unpadded_output_shapes@) == op.shapes_of(shs, PaddingMode::NoPadding)
            &&& tviews(t.input@) == tviews(input)
        }),
{
    let r = model.run_view(input);
    let depth = r.g.dom().len();
    let d = (depth - 1) as nat;
    let op = model.nodes@[id].operation;
    let edges = model.nodes@[id].inputs@;
    let step = t.steps@[id];
    let ins = Seq::new(edges.len(), |i: int| incoming(input, t, edges[i]));
    let shs = Seq::new(edges.len(), |i: int| incoming_shape(model, t, edges[i]));
    assert(r.g.contains_key(id));
    assert(t.steps@.contains_key(id));
    assert(r.g.dom() =~= model.nodes@.dom());
    assert(node_out(r, id, depth) == Some(step.v()));
    assert(depth > 0);
    let vals = input_values(r, id, d);
    lemma_node_out(r, id, depth);
    assert(all_known(vals));
    assert(r.g[id].inputs == edges);
    assert forall|i: int| 0 <= i < edges.len() implies brings(model, input, t, #[trigger] edges[i])
        && vals[i]->0 == (ins[i], shs[i]) && step.inputs@[i]@ == ins[i] by {
        assert(vals[i] is Some);
        lemma_edge_depth(r, edges[i], d, depth);
        assert(step_input_is(r, id, depth, step, i));
        if let Some(n) = edges[i].node {
            assert(node_out(r, n, depth) is Some);
            assert(r.g.contains_key(n));
            assert(t.steps@.contains_key(n));
            assert(node_out(r, n, depth) == Some(t.steps@[n].v()));
        }
    }
    assert(Seq::new(vals.len(), |i: int| (vals[i]->0).0) =~= ins);
    assert(Seq::new(vals.len(), |i: int| (vals[i]->0).1) =~= shs);
    assert(tviews(step.inputs@) =~= ins);
}

/// Output `w` of the node goes to output `k` of the model: the first of its edges that goes to no
/// node goes there.
pub open spec fn goes_out(model: Model<Element>, id: NodeId, w: int, j: int, k: int) -> bool {
    let edges = model.nodes@[id].outputs@[w].edges@;
    &&& model.nodes@.contains_key(id)
    &&& 0 <= w < model.nodes@[id].outputs@.len()
    &&& 0 <= j < edges.len()
    &&& edges[j].node is None
    &&& edges[j].index == k
    &&& forall|i: int| 0 <= i < j ==> (#[trigger] edges[i]).node is Some
}

proof fn lemma_output_index(wire: Seq<Edge>)
    ensures
        output_index(wire) is None ==> forall|i: int|
            0 <= i < wire.len() ==> (#[trigger] wire[i]).node is Some,
        output_index(wire) is Some ==> exists|j: int|
            0 <= j < wire.len() && (#[trigger] wire[j]).node is None && wire[j].index
                == output_index(wire)->0 && forall|i: int|
                0 <= i < j ==> (#[trigger] wire[i]).node is Some,
    decreases wire.len(),
{
    if wire.len() > 0 {
        let rest = wire.skip(1);
        lemma_output_index(rest);
        if wire[0].node is None {
            assert(wire[0].index == output_index(wire)->0);
        } else if output_index(rest) is None {
            assert forall|i: int| 0 <= i < wire.len() implies (#[trigger] wire[i]).node is Some by {
                if i > 0 {
                    assert(rest[i - 1] == wire[i]);
                }
            }
        } else {
            let j = choose|j: int|
                0 <= j < rest.len() && (#[trigger] rest[j]).node is None && rest[j].index
                    == output_index(rest)->0 && forall|i: int|
                    0 <= i < j ==> (#[trigger] rest[i]).node is Some;
            assert(wire[j + 1] == rest[j]);
            assert forall|i: int| 0 <= i < j + 1 implies (#[trigger] wire[i]).node is Some by {
                if i > 0 {
                    assert(rest[i - 1] == wire[i]);
                }
            }
        }
    }
}

proof fn lemma_output_index_at(wire: Seq<Edge>, j: int)
    requires
        0 <= j < wire.len(),
        wire[j].node is None,
        forall|i: int| 0 <= i < j ==> (#[trigger] wire[i]).node is Some,
    ensures
        output_index(wire) == Some(wire[j].index),
    decreases wire.len(),
{
    if j > 0 {
        assert(wire[0].node is Some);
        let rest = wire.skip(1);
        assert forall|i: int| 0 <= i < j - 1 implies (#[trigger] rest[i]).node is Some by {
            assert(wire[i + 1].node is Some);
        }
        lemma_output_index_at(rest, j - 1);
    }
}

/// What goes out to output `k` of the model is, in a run, output `k` of the run.
pub proof fn law_run_output(
    model: Model<Element>,
    input: Seq<Tensor<Element>>,
    t: InferenceTrace<Element>,
    id: NodeId,
    w: int,
    j: int,
    k: int,
)
    requires
        trace_is(model.run_view(input), t),
        goes_out(model, id, w, j, k),
    ensures
        0 <= k < t.output@.len(),
        t.output@[k]@ == tviews(t.steps@[id].outputs.outputs@)[w],
{
    let r = model.run_view(input);
    let edges = model.nodes@[id].outputs@[w].edges@;
    lemma_output_index_at(edges, j);
    assert(r.g.contains_key(id));
    assert(r.g[id].outputs[w] == edges);
    assert(is_model_output(r.g, id, w, k as usize));
    assert(t.steps@.contains_key(id));
}

/// Each output of a run comes from exactly one output of exactly one node.
pub proof fn law_run_outputs(
    model: Model<Element>,
    input: Seq<Tensor<Element>>,
    t: InferenceTrace<Element>,
    k: int,
) -> (from: (NodeId, int, int))
    requires
        trace_is(model.run_view(input), t),
        0 <= k < t.output@.len(),
    ensures
        t.output@.len() >= 1,
        goes_out(model, from.0, from.1, from.2, k),
        t.output@[k]@ == tviews(t.steps@[from.0].outputs.outputs@)[from.1],
        forall|id: NodeId, w: int, j: int| #[trigger]
            goes_out(model, id, w, j, k) ==> id == from.0 && w == from.1 && j == from.2,
{
    let r = model.run_view(input);
    assert(has_output(r.g, k as usize));
    let (id, w) = choose|id: NodeId, w: int| #[trigger] is_model_output(r.g, id, w, k as usize);
    let edges = model.nodes@[id].outputs@[w].edges@;
    assert(r.g[id].outputs[w] == edges);
    lemma_output_index(edges);
    let j = choose|j: int|
        0 <= j < edges.len() && (#[trigger] edges[j]).node is None && edges[j].index
            == output_index(edges)->0 && forall|i: int|
            0 <= i < j ==> (#[trigger] edges[i]).node is Some;
    law_run_output(model, input, t, id, w, j, k);
    assert forall|id2: NodeId, w2: int, j2: int| #[trigger]
        goes_out(model, id2, w2, j2, k) implies id2 == id && w2 == w && j2 == j by {
        let edges2 = model.nodes@[id2].outputs@[w2].edges@;
        lemma_output_index_at(edges2, j2);
        assert(r.g[id2].outputs[w2] == edges2);
        assert(is_model_output(r.g, id2, w2, k as usize));
        if j2 < j {
            assert(edges[j2].node is Some);
        }
        if j < j2 {
            assert(edges2[j].node is Some);
        }
    }
    (id, w, j)
}

/// In a run, a node that convolves by transforms, padded and adapted, and that is brought padded
/// images, gives at filter `o`, row `r` and column `c` the sum over the channels, rows and columns
/// of the filter of the products with the unpadded image, plus the bias, where the filter fits
/// into the unpadded image there, and zero elsewhere. The sums must be small against the prime.
pub proof fn law_run_convolution(
    model: Model<Element>,
    input: Seq<Tensor<Element>>,
    t: InferenceTrace<Element>,
    id: NodeId,
    layer: Convolution<Element>,
    x: TensorView<Element>,
    o: int,
    r: int,
    c: int,
)
    requires
        trace_is(model.run_view(input), t),
        model.nodes@.contains_key(id),
        model.nodes@[id].operation is Convolution,
        model.nodes@[id].inputs@.len() == 1,
        square_conv(x, layer.filter@),
        layer.bias@.shape == seq![layer.filter@.shape[0]],
        layer.unpadded_shape@ == layer.filter@.shape,
        can_adapt(layer, x.shape),
        is_adapted(layer, x.shape, model.nodes@[id].operation->Convolution_0),
        incoming(input, t, model.nodes@[id].inputs@[0]) == tensor(
            pow2_shape(x.shape),
            padded(x.data, x.shape, pow2_shape(x.shape), 0),
        ),
        incoming_shape(model, t, model.nodes@[id].inputs@[0]) == x.shape,
        0 <= o < npow2(layer.filter@.shape[0] as nat),
        0 <= r < npow2(x.shape[1] as nat),
        0 <= c < npow2(x.shape[1] as nat),
    ensures
        ({
            let w = layer.filter@;
            let h = x.shape[1] as int;
            let k = w.shape[2] as int;
            let n = npow2(h as nat) as int;
            let y = t.steps@[id].outputs.outputs@;
            let sum = correlation(x.data, h, h, w.data, w.shape[1] as int, k, k, 0, o, r, c);
            &&& y.len() == 1
            &&& y[0]@.shape == seq![npow2(w.shape[0] as nat) as usize, n as usize, n as usize]
            &&& if o < w.shape[0] && r + k <= h && c + k <= h {
                -(modulus() / 2) <= sum <= modulus() / 2 ==> y[0]@.data[(o * n + r) * n + c] == sum
                    + layer.bias@.data[o]
            } else {
                y[0]@.data[(o * n + r) * n + c] == 0
            }
        }),
{
    let conv = model.nodes@[id].operation->Convolution_0;
    let edges = model.nodes@[id].inputs@;
    let xp = incoming(input, t, edges[0]);
    law_run_step(model, input, t, id);
    assert(Seq::new(edges.len(), |i: int| incoming(input, t, edges[i])) =~= seq![xp]);
    assert(Seq::new(edges.len(), |i: int| incoming_shape(model, t, edges[i])) =~= seq![x.shape]);
    law_convolution_layer(layer, x, conv, xp, o, r, c);
    let y = t.steps@[id].outputs.outputs@;
    assert(tviews(y).len() == y.len());
    assert(tviews(y)[0] == y[0]@);
}

/// The tensor that an edge brings, and its shape without padding, where node `n` gives `outs[n]`.
pub open spec fn given(
    input: Seq<Tensor<Element>>,
    model: Model<Element>,
    outs: Map<NodeId, StepView>,
    e: Edge,
) -> (TensorView<Element>, Seq<usize>) {
    match e.node {
        Some(n) => (outs[n].outputs[e.index as int], outs[n].shapes[e.index as int]),
        None => (input[e.index as int]@, model.unpadded_input_shapes@[e.index as int]@),
    }
}

/// Node `order[k]` gives `outs[order[k]]`: its edges come from inputs of the model and from
/// outputs of nodes earlier in the order, and its layer runs on what they bring.
pub open spec fn gives(
    model: Model<Element>,
    input: Seq<Tensor<Element>>,
    order: Seq<NodeId>,
    outs: Map<NodeId, StepView>,
    k: int,
) -> bool {
    let op = model.nodes@[order[k]].operation;
    let edges = model.nodes@[order[k]].inputs@;
    let ins = Seq::new(edges.len(), |i: int| given(input, model, outs, edges[i]).0);
    let shs = Seq::new(edges.len(), |i: int| given(input, model, outs, edges[i]).1);
    &&& forall|i: int|
        0 <= i < edges.len() ==> match (#[trigger] edges[i]).node {
            Some(n) => {
                &&& exists|j: int| 0 <= j < k && #[trigger] order[j] == n
                &&& edges[i].index < outs[n].outputs.len()
                &&& edges[i].index < outs[n].shapes.len()
            },
            None => edges[i].index < input.len() && edges[i].index
                < model.unpadded_input_shapes@.len(),
        }
    &&& op.shapes_ok(shs, PaddingMode::NoPadding)
    &&& layer_fault(op, ins, shs) is None
    &&& outs[order[k]].outputs == layer_result(op, ins, shs)
    &&& outs[order[k]].shapes == op.shapes_of(shs, PaddingMode::NoPadding)
}

proof fn lemma_gives(
    model: Model<Element>,
    input: Seq<Tensor<Element>>,
    order: Seq<NodeId>,
    outs: Map<NodeId, StepView>,
    k: int,
)
    requires
        0 <= k < order.len(),
        forall|j: int| 0 <= j <= k ==> #[trigger] gives(model, input, order, outs, j),
        forall|j: int| 0 <= j <= k ==> model.nodes@.contains_key(#[trigger] order[j]),
    ensures
        node_out(model.run_view(input), order[k], (k + 1) as nat) == Some(outs[order[k]]),
    decreases k,
{
    let r = model.run_view(input);
    let id = order[k];
    let edges = model.nodes@[id].inputs@;
    assert(gives(model, input, order, outs, k));
    assert(r.g.contains_key(id));
    assert(r.g[id].inputs == edges);
    lemma_node_out(r, id, (k + 1) as nat);
    let vals = input_values(r, id, k as nat);
    assert forall|i: int| 0 <= i < edges.len() implies #[trigger] vals[i] == Some(
        given(input, model, outs, edges[i]),
    ) by {
        if let Some(n) = edges[i].node {
            let j = choose|j: int| 0 <= j < k && #[trigger] order[j] == n;
            lemma_gives(model, input, order, outs, j);
            lemma_depth(r, n, (j + 1) as nat, k as nat);
        }
    }
    assert(all_known(vals));
    let ins = Seq::new(edges.len(), |i: int| given(input, model, outs, edges[i]).0);
    let shs = Seq::new(edges.len(), |i: int| given(input, model, outs, edges[i]).1);
    assert(Seq::new(vals.len(), |i: int| (vals[i]->0).0) =~= ins);
    assert(Seq::new(vals.len(), |i: int| (vals[i]->0).1) =~= shs);
}

/// A model can be run where its nodes can be put in an order such that each layer runs on what the
/// earlier nodes and the inputs of the model bring, the nodes give an output for each wire, and
/// what goes out of the model is numbered from zero on, each number once. A run gives what these
/// nodes give.
pub proof fn law_run_succeeds(
    model: Model<Element>,
    input: Seq<Tensor<Element>>,
    order: Seq<NodeId>,
    outs: Map<NodeId, StepView>,
    from: Seq<(NodeId, int, int)>,
)
    requires
        order.no_duplicates(),
        order.to_set() == model.nodes@.dom(),
        forall|k: int| 0 <= k < order.len() ==> #[trigger] gives(model, input, order, outs, k),
        forall|id: NodeId| #[trigger]
            model.nodes@.contains_key(id) ==> outs[id].outputs.len()
                == model.nodes@[id].outputs@.len(),
        1 <= from.len() <= usize::MAX,
        forall|k: int|
            0 <= k < from.len() ==> goes_out(
                model,
                (#[trigger] from[k]).0,
                from[k].1,
                from[k].2,
                k,
            ),
        forall|id: NodeId, w: int, j: int, k: int| #[trigger]
            goes_out(model, id, w, j, k) ==> k < from.len() && from[k] == (id, w, j),
    ensures
        runs(model.run_view(input)),
        forall|t: InferenceTrace<Element>, id: NodeId|
            trace_is(model.run_view(input), t) && model.nodes@.contains_key(id) ==> tviews(
                (#[trigger] t.steps@[id]).outputs.outputs@,
            ) == outs[id].outputs,
{
    let r = model.run_view(input);
    let depth = r.g.dom().len();
    assert(r.g.dom() =~= model.nodes@.dom());
    order.unique_seq_to_set();
    assert(depth == order.len());
    assert forall|j: int| 0 <= j < order.len() implies model.nodes@.contains_key(
        #[trigger] order[j],
    ) by {
        assert(order.to_set().contains(order[j]));
    }
    assert forall|id: NodeId| #[trigger] r.g.contains_key(id) implies node_out(r, id, depth)
        == Some(outs[id]) by {
        assert(order.to_set().contains(id));
        let k = choose|k: int| 0 <= k < order.len() && order[k] == id;
        lemma_gives(model, input, order, outs, k);
        lemma_depth(r, id, (k + 1) as nat, depth);
    }
    assert forall|id: NodeId| #[trigger]
        r.g.contains_key(id) && is_output_node(r.g[id]) implies (node_out(
        r,
        id,
        depth,
    )->0).outputs.len() == r.g[id].outputs.len() by {
        assert(model.nodes@.contains_key(id));
    }
    let n = from.len();
    assert forall|k: usize| k < n implies #[trigger] has_output(r.g, k) by {
        let (id, w, j) = from[k as int];
        assert(goes_out(model, from[k as int].0, from[k as int].1, from[k as int].2, k as int));
        let edges = model.nodes@[id].outputs@[w].edges@;
        lemma_output_index_at(edges, j);
        assert(r.g.contains_key(id));
        assert(r.g[id].outputs[w] == edges);
        assert(is_model_output(r.g, id, w, k));
    }
    assert forall|id: NodeId, w: int, k: usize| #[trigger] is_model_output(r.g, id, w, k) implies k
        < n && from[k as int].0 == id && from[k as int].1 == w by {
        let edges = model.nodes@[id].outputs@[w].edges@;
        assert(r.g[id].outputs[w] == edges);
        lemma_output_index(edges);
        let j = choose|j: int|
            0 <= j < edges.len() && (#[trigger] edges[j]).node is None && edges[j].index
                == output_index(edges)->0 && forall|i: int|
                0 <= i < j ==> (#[trigger] edges[i]).node is Some;
        assert(goes_out(model, id, w, j, k as int));
    }
    assert(outputs_numbered(r.g, n));
    assert forall|t: InferenceTrace<Element>, id: NodeId|
        trace_is(r, t) && model.nodes@.contains_key(id) implies tviews(
        (#[trigger] t.steps@[id]).outputs.outputs@,
    ) == outs[id].outputs by {
        assert(r.g.contains_key(id));
        assert(t.steps@.contains_key(id));
        assert(Some(t.steps@[id].v()) == node_out(r, id, depth));
    }
}

/// A node gives an output of the model exactly where one of its wires goes to no node.
pub proof fn law_output_node(node: Node<Element>)
    ensures
        is_output_node(node@) <==> exists|w: int, j: int|
            0 <= w < node.outputs@.len() && 0 <= j < node.outputs@[w].edges@.len() && (
            #[trigger] node.outputs@[w].edges@[j]).node is None,
{
    let v = node@;
    if is_output_node(v) {
        let w = choose|w: int| 0 <= w < v.outputs.len() && #[trigger] output_index(v.outputs[w]) is Some;
        let edges = node.outputs@[w].edges@;
        assert(v.outputs[w] == edges);
        lemma_output_index(edges);
        let j = choose|j: int| 0 <= j < edges.len() && (#[trigger] edges[j]).node is None;
        assert(node.outputs@[w].edges@[j].node is None);
    } else if exists|w: int, j: int|
        0 <= w < node.outputs@.len() && 0 <= j < node.outputs@[w].edges@.len() && (
        #[trigger] node.outputs@[w].edges@[j]).node is None {
        let (w, j) = choose|w: int, j: int|
            0 <= w < node.outputs@.len() && 0 <= j < node.outputs@[w].edges@.len() && (
            #[trigger] node.outputs@[w].edges@[j]).node is None;
        let edges = node.outputs@[w].edges@;
        assert(v.outputs[w] == edges);
        lemma_output_index(edges);
        assert(edges[j].node is None);
        assert(output_index(v.outputs[w]) is Some);
    }
}

} // verus!
