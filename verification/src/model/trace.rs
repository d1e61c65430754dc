//! Running a model.
use crate::layers::{Layer, layer_fault, layer_result};
use crate::layers::convolution::{Convolution, conv_entries};
use crate::layers::fft_conv::conv_data_is;
use crate::layers::provable::{Edge, LayerOut, NodeId, OutputWire, PaddingMode};
use crate::model::{ModelError, NodeView, model_err, model_error};
use crate::quantization::Element;
use crate::shape::shapes;
use crate::tensor::{Tensor, TensorView, tviews};
use std::collections::HashMap;
use vstd::prelude::*;
use vstd::slice::slice_to_vec;

verus! {

/// What a node did in a run: its inputs, its outputs, and the shapes of the outputs without
/// padding.
#[derive(Clone, Debug)]
pub struct StepData<N> {
    pub inputs: Vec<Tensor<N>>,
    pub outputs: LayerOut<N>,
    pub unpadded_output_shapes: Vec<Vec<usize>>,
}

/// A run of a model: what each node did, and the inputs and outputs of the model.
#[derive(Clone, Debug)]
pub struct InferenceTrace<N> {
    pub steps: HashMap<NodeId, StepData<N>>,
    pub input: Vec<Tensor<N>>,
    pub output: Vec<Tensor<N>>,
}

/// What a node gave: its outputs, and their shapes without padding.
#[verifier::ext_equal]
pub struct StepView {
    pub outputs: Seq<TensorView<Element>>,
    pub shapes: Seq<Seq<usize>>,
}

impl<N> StepData<N> {
    /// The outputs of the node.
    pub fn outputs(&self) -> (r: &[Tensor<N>])
        ensures
            r@ == self.outputs.outputs@,
    {
        self.outputs.outputs()
    }
}

impl<N> InferenceTrace<N> {
    /// What a node did, if it is part of the run.
    pub fn get_step(&self, id: &NodeId) -> (r: Option<&StepData<N>>)
        ensures
            r == if self.steps@.contains_key(*id) {
                Some(&self.steps@[*id])
            } else {
                None
            },
    {
        self.steps.get(id)
    }

    /// The outputs of the model. Fails where there are none.
    pub fn outputs(&self) -> (r: Result<&[Tensor<N>], ModelError>)
        ensures
            self.output@.len() == 0 ==> model_error(r, "No outputs found in trace"@),
            self.output@.len() > 0 ==> r is Ok && r->Ok_0@ == self.output@,
    {
        if self.output.len() == 0 {
            return model_err("No outputs found in trace");
        }
        Ok(self.output.as_slice())
    }
}

impl StepData<Element> {
    pub open spec fn v(self) -> StepView {
        StepView {
            outputs: tviews(self.outputs.outputs@),
            shapes: shapes(self.unpadded_output_shapes@),
        }
    }
}

/// The operands of a run: the graph, the inputs of the model, and their shapes without padding.
#[verifier::ext_equal]
pub struct RunView {
    pub g: Map<NodeId, NodeView<Element>>,
    pub xs: Seq<TensorView<Element>>,
    pub us: Seq<Seq<usize>>,
}

/// What a layer gives for its inputs, where nothing goes wrong.
pub open spec fn node_eval(
    op: Layer<Element>,
    ins: Seq<TensorView<Element>>,
    shs: Seq<Seq<usize>>,
) -> Option<StepView> {
    if op.shapes_ok(shs, PaddingMode::NoPadding) && layer_fault(op, ins, shs) is None {
        Some(
            StepView {
                outputs: layer_result(op, ins, shs),
                shapes: op.shapes_of(shs, PaddingMode::NoPadding),
            },
        )
    } else {
        None
    }
}

/// Output `index` of a step, with its shape.
pub open spec fn pick(s: StepView, index: int) -> Option<(TensorView<Element>, Seq<usize>)> {
    if index < s.outputs.len() && index < s.shapes.len() {
        Some((s.outputs[index], s.shapes[index]))
    } else {
        None
    }
}

/// All values are known.
pub open spec fn all_known(vals: Seq<Option<(TensorView<Element>, Seq<usize>)>>) -> bool {
    forall|i: int| 0 <= i < vals.len() ==> #[trigger] vals[i] is Some
}

/// What a layer gives for inputs that may be unknown.
pub open spec fn combined(
    op: Layer<Element>,
    vals: Seq<Option<(TensorView<Element>, Seq<usize>)>>,
) -> Option<StepView> {
    if all_known(vals) {
        node_eval(
            op,
            Seq::new(vals.len(), |i: int| (vals[i]->0).0),
            Seq::new(vals.len(), |i: int| (vals[i]->0).1),
        )
    } else {
        None
    }
}

/// What node `id` gives, if it can be told within `depth` nodes on any way back to the inputs of
/// the model.
pub open spec fn node_out(r: RunView, id: NodeId, depth: nat) -> Option<StepView>
    decreases depth, 0nat,
{
    if depth == 0 || !r.g.contains_key(id) {
        None
    } else {
        combined(
            r.g[id].operation,
            values_before(r, r.g[id].inputs, r.g[id].inputs.len(), (depth - 1) as nat),
        )
    }
}

/// What comes in over the first `k` edges.
pub open spec fn values_before(r: RunView, edges: Seq<Edge>, k: nat, depth: nat) -> Seq<
    Option<(TensorView<Element>, Seq<usize>)>,
>
    decreases depth, k + 2,
{
    if k == 0 {
        Seq::empty()
    } else {
        values_before(r, edges, (k - 1) as nat, depth).push(edge_value(r, edges[k - 1], depth))
    }
}

/// What comes in over an edge, with its shape.
pub open spec fn edge_value(r: RunView, e: Edge, depth: nat) -> Option<
    (TensorView<Element>, Seq<usize>),
>
    decreases depth, 1nat,
{
    match e.node {
        Some(n) => match node_out(r, n, depth) {
            Some(s) => pick(s, e.index as int),
            None => None,
        },
        None => if e.index < r.xs.len() && e.index < r.us.len() {
            Some((r.xs[e.index as int], r.us[e.index as int]))
        } else {
            None
        },
    }
}

/// The values of the edges of node `id`.
pub open spec fn input_values(r: RunView, id: NodeId, depth: nat) -> Seq<
    Option<(TensorView<Element>, Seq<usize>)>,
> {
    Seq::new(
        r.g[id].inputs.len(),
        |i: int| edge_value(r, r.g[id].inputs[i], depth),
    )
}

pub proof fn lemma_node_out(r: RunView, id: NodeId, depth: nat)
    requires
        depth > 0,
        r.g.contains_key(id),
    ensures
        node_out(r, id, depth) == combined(
            r.g[id].operation,
            input_values(r, id, (depth - 1) as nat),
        ),
{
    let d = (depth - 1) as nat;
    let inputs = r.g[id].inputs;
    lemma_values_before(r, inputs, inputs.len(), d);
    assert(values_before(r, inputs, inputs.len(), d) =~= input_values(r, id, d));
}

proof fn lemma_values_before(r: RunView, edges: Seq<Edge>, k: nat, depth: nat)
    ensures
        values_before(r, edges, k, depth).len() == k,
        forall|i: int|
            0 <= i < k ==> #[trigger] values_before(r, edges, k, depth)[i] == edge_value(
                r,
                edges[i],
                depth,
            ),
    decreases k,
{
    if k > 0 {
        lemma_values_before(r, edges, (k - 1) as nat, depth);
    }
}

/// What a node gives does not depend on how far one looks, once it can be told.
pub proof fn lemma_depth(r: RunView, id: NodeId, a: nat, b: nat)
    requires
        a <= b,
        node_out(r, id, a) is Some,
    ensures
        node_out(r, id, b) == node_out(r, id, a),
    decreases a, 0nat,
{
    if a > 0 {
        let n = r.g[id];
        let va = input_values(r, id, (a - 1) as nat);
        let vb = input_values(r, id, (b - 1) as nat);
        lemma_node_out(r, id, a);
        lemma_node_out(r, id, b);
        assert forall|i: int| 0 <= i < n.inputs.len() implies va[i] is Some && va[i] == vb[i] by {
            assert(va[i] is Some);
            lemma_edge_depth(r, n.inputs[i], (a - 1) as nat, (b - 1) as nat);
        }
        assert(va =~= vb);
    }
}

pub proof fn lemma_edge_depth(r: RunView, e: Edge, a: nat, b: nat)
    requires
        a <= b,
        edge_value(r, e, a) is Some,
    ensures
        edge_value(r, e, b) == edge_value(r, e, a),
    decreases a, 1nat,
{
    if let Some(n) = e.node {
        lemma_depth(r, n, a, b);
    }
}

/// A node whose inputs are known, and whose layer fails on them, gives nothing.
pub proof fn lemma_node_fails(r: RunView, id: NodeId, k: nat, depth: nat)
    requires
        r.g.contains_key(id),
        all_known(input_values(r, id, k)),
        node_out(r, id, k + 1) is None,
    ensures
        node_out(r, id, depth) is None,
{
    if node_out(r, id, depth) is Some {
        if depth <= k + 1 {
            lemma_depth(r, id, depth, k + 1);
        } else {
            let n = r.g[id];
            let va = input_values(r, id, k);
            let vb = input_values(r, id, (depth - 1) as nat);
            lemma_node_out(r, id, k + 1);
            lemma_node_out(r, id, depth);
            assert forall|i: int| 0 <= i < n.inputs.len() implies va[i] == vb[i] by {
                assert(va[i] is Some);
                lemma_edge_depth(r, n.inputs[i], k, (depth - 1) as nat);
            }
            assert(va =~= vb);
        }
    }
}

/// A node one of whose inputs stays unknown gives nothing.
pub proof fn lemma_input_fails(r: RunView, id: NodeId, i: int, depth: nat)
    requires
        r.g.contains_key(id),
        0 <= i < r.g[id].inputs.len(),
        forall|d: nat| #[trigger] edge_value(r, r.g[id].inputs[i], d) is None,
    ensures
        node_out(r, id, depth) is None,
{
    if depth > 0 {
        let v = input_values(r, id, (depth - 1) as nat);
        lemma_node_out(r, id, depth);
        assert(v[i] == edge_value(r, r.g[id].inputs[i], (depth - 1) as nat));
        assert(!(v[i] is Some));
    }
}

/// Nodes that all wait for one another give nothing.
pub proof fn lemma_stuck(r: RunView, waiting: Set<NodeId>, id: NodeId, depth: nat)
    requires
        waiting.contains(id),
        forall|n: NodeId| #[trigger] waiting.contains(n) ==> waits(r, waiting, n),
    ensures
        node_out(r, id, depth) is None,
    decreases depth,
{
    if depth > 0 && r.g.contains_key(id) {
        assert(waits(r, waiting, id));
        let i = choose|i: int|
            0 <= i < r.g[id].inputs.len() && waits_for(r, waiting, #[trigger] r.g[id].inputs[i]);
        let e = r.g[id].inputs[i];
        let d = (depth - 1) as nat;
        if waiting.contains(e.node->0) {
            lemma_stuck(r, waiting, e.node->0, d);
        }
        let v = input_values(r, id, d);
        lemma_node_out(r, id, depth);
        assert(v[i] == edge_value(r, e, d));
        assert(!(v[i] is Some));
    }
}

/// What comes in over the edge is waited for, or comes from a node that does not exist.
pub open spec fn waits_for(r: RunView, waiting: Set<NodeId>, e: Edge) -> bool {
    e.node is Some && (waiting.contains(e.node->0) || !r.g.contains_key(e.node->0))
}

/// Some input of the node is waited for.
pub open spec fn waits(r: RunView, waiting: Set<NodeId>, n: NodeId) -> bool {
    exists|i: int|
        0 <= i < r.g[n].inputs.len() && waits_for(r, waiting, #[trigger] r.g[n].inputs[i])
}

// ---------------------------------------------------------------------------------------
// The outputs of a model
// ---------------------------------------------------------------------------------------

/// The number of the output of the model that a wire goes to first, if it goes to one.
pub open spec fn output_index(wire: Seq<Edge>) -> Option<usize>
    decreases wire.len(),
{
    if wire.len() == 0 {
        None
    } else if wire[0].node is None {
        Some(wire[0].index)
    } else {
        output_index(wire.skip(1))
    }
}

/// Output `w` of node `id` is output `k` of the model.
pub open spec fn is_model_output<N>(
    g: Map<NodeId, NodeView<N>>,
    id: NodeId,
    w: int,
    k: usize,
) -> bool {
    &&& g.contains_key(id)
    &&& 0 <= w < g[id].outputs.len()
    &&& output_index(g[id].outputs[w]) == Some(k)
}

/// Some output of some node is output `k` of the model.
pub open spec fn has_output<N>(g: Map<NodeId, NodeView<N>>, k: usize) -> bool {
    exists|id: NodeId, w: int| #[trigger] is_model_output(g, id, w, k)
}

/// Some output of the node is an output of the model.
pub open spec fn is_output_node<N>(n: NodeView<N>) -> bool {
    exists|w: int| 0 <= w < n.outputs.len() && #[trigger] output_index(n.outputs[w]) is Some
}

/// The outputs of the model are numbered from zero on, without gaps, each once, and there is at
/// least one.
pub open spec fn outputs_numbered<N>(g: Map<NodeId, NodeView<N>>, n: nat) -> bool {
    &&& n > 0
    &&& n <= usize::MAX
    &&& forall|k: usize| k < n ==> #[trigger] has_output(g, k)
    &&& forall|id: NodeId, w: int, k: usize| #[trigger] is_model_output(g, id, w, k) ==> k < n
    &&& forall|id: NodeId, w: int, id2: NodeId, w2: int, k: usize|
        #![trigger is_model_output(g, id, w, k), is_model_output(g, id2, w2, k)]
        is_model_output(g, id, w, k) && is_model_output(g, id2, w2, k) ==> id == id2 && w == w2
}

/// The model can be run on the inputs: every node gives something, a node that gives outputs of the
/// model gives as many as it has wires, and the outputs of the model are well numbered.
pub open spec fn runs(r: RunView) -> bool {
    let depth = r.g.dom().len();
    &&& forall|id: NodeId| #[trigger]
        r.g.contains_key(id) ==> node_out(r, id, depth) is Some
    &&& forall|id: NodeId| #[trigger]
        r.g.contains_key(id) && is_output_node(r.g[id]) ==> (node_out(
            r,
            id,
            depth,
        )->0).outputs.len() == r.g[id].outputs.len()
    &&& exists|n: nat| outputs_numbered(r.g, n)
}

/// The trace of a run.
pub open spec fn trace_is(r: RunView, t: InferenceTrace<Element>) -> bool {
    let depth = r.g.dom().len();
    &&& t.steps@.dom() == r.g.dom()
    &&& forall|id: NodeId| #[trigger]
        t.steps@.contains_key(id) ==> {
            &&& Some(t.steps@[id].v()) == node_out(r, id, depth)
            &&& step_inputs_are(r, id, depth, t.steps@[id])
        }
    &&& tviews(t.input@) == r.xs
    &&& outputs_numbered(r.g, t.output@.len())
    &&& forall|id: NodeId, w: int, k: usize| #[trigger]
        is_model_output(r.g, id, w, k) ==> t.output@[k as int]@ == (node_out(
            r,
            id,
            depth,
        )->0).outputs[w]
}

/// Input `i` that a step kept is what its edge brings.
pub open spec fn step_input_is(
    r: RunView,
    id: NodeId,
    depth: nat,
    s: StepData<Element>,
    i: int,
) -> bool {
    let v = edge_value(r, r.g[id].inputs[i], depth);
    v is Some && s.inputs@[i]@ == (v->0).0
}

/// The inputs that a step kept are those that its edges bring; a convolution kept what its proof
/// needs.
pub open spec fn step_inputs_are(
    r: RunView,
    id: NodeId,
    depth: nat,
    s: StepData<Element>,
) -> bool {
    &&& s.inputs@.len() == r.g[id].inputs.len()
    &&& forall|i: int| 0 <= i < s.inputs@.len() ==> #[trigger] step_input_is(r, id, depth, s, i)
    &&& s.outputs.proving_data is Some <==> r.g[id].operation is Convolution
    &&& r.g[id].operation matches Layer::Convolution(c) ==> conv_data_is(
        c.filter@,
        s.inputs@[0]@,
        s.outputs.proving_data->0,
    ) && s.outputs.proving_data->0.output_as_element@ == conv_entries(c, s.inputs@[0]@)
}

/// The number of the output of the model that a wire goes to first, if it goes to one.
pub fn wire_output(wire: &OutputWire) -> (r: Option<usize>)
    ensures
        r == output_index(wire.edges@),
{
    let mut i: usize = 0;
    proof {
        assert(wire.edges@.skip(0) =~= wire.edges@);
    }
    while i < wire.edges.len()
        invariant
            i <= wire.edges@.len(),
            output_index(wire.edges@) == output_index(wire.edges@.skip(i as int)),
        decreases wire.edges@.len() - i,
    {
        proof {
            assert(wire.edges@.skip(i as int).skip(1) =~= wire.edges@.skip(i + 1));
            assert(wire.edges@.skip(i as int)[0] == wire.edges@[i as int]);
        }
        if wire.edges[i].node.is_none() {
            return Some(wire.edges[i].index);
        }
        i = i + 1;
    }
    None
}

} // verus!
