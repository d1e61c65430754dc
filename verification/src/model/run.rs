//! Running a model on quantised inputs.
use crate::layers::ref_views;
use crate::layers::provable::{Edge, Node, NodeId, PaddingMode};
use crate::model::{Model, ModelError, NodeView, below, lemma_below, model_err};
use crate::model::faults::{
    all_made, count_differs, count_text, first_unknown, gap_err, model_input_text, node_fails,
    request_text, run_fault, shape_text, sources_known, step_fault, twice, twice_text,
};
use crate::model::trace::{
    InferenceTrace, RunView, StepData, all_known, edge_value, has_output, input_values,
    is_model_output, is_output_node, lemma_depth, lemma_edge_depth, lemma_input_fails,
    lemma_node_fails, lemma_node_out, lemma_stuck, node_out, output_index, outputs_numbered, pick,
    runs, step_input_is, step_inputs_are, trace_is, waits, waits_for, wire_output,
};
use crate::quantization::Element;
use crate::shape::shapes;
use crate::tensor::{Tensor, tviews};
use std::collections::HashMap;
use vstd::prelude::*;

verus! {

/// The steps that were made are those of the run, as far as `depth` nodes back.
pub open spec fn steps_ok(
    r: RunView,
    steps: Map<NodeId, StepData<Element>>,
    depth: nat,
) -> bool {
    forall|id: NodeId| #[trigger]
        steps.contains_key(id) ==> {
            &&& r.g.contains_key(id)
            &&& Some(steps[id].v()) == node_out(r, id, depth)
            &&& step_inputs_are(r, id, depth, steps[id])
        }
}

/// The nodes that the inputs of a node come from have made their steps.
pub open spec fn inputs_done(inputs: Seq<Edge>, done: Set<NodeId>) -> bool {
    forall|i: int|
        0 <= i < inputs.len() && inputs[i].node is Some ==> done.contains(
            (#[trigger] inputs[i]).node->0,
        )
}

proof fn lemma_steps_deeper(
    r: RunView,
    steps: Map<NodeId, StepData<Element>>,
    a: nat,
    b: nat,
)
    requires
        steps_ok(r, steps, a),
        a <= b,
    ensures
        steps_ok(r, steps, b),
{
    assert forall|id: NodeId| #[trigger] steps.contains_key(id) implies {
        &&& r.g.contains_key(id)
        &&& Some(steps[id].v()) == node_out(r, id, b)
        &&& step_inputs_are(r, id, b, steps[id])
    } by {
        lemma_depth(r, id, a, b);
        let s = steps[id];
        assert forall|i: int| 0 <= i < s.inputs@.len() implies #[trigger] step_input_is(
            r,
            id,
            b,
            s,
            i,
        ) by {
            assert(step_input_is(r, id, a, s, i));
            lemma_edge_depth(r, r.g[id].inputs[i], a, b);
        }
    }
}

/// An edge that names an output that its node does not have brings nothing, however far one looks.
proof fn lemma_edge_never(r: RunView, e: Edge, n: NodeId, k: nat)
    requires
        e.node == Some(n),
        node_out(r, n, k) is Some,
        pick(node_out(r, n, k)->0, e.index as int) is None,
    ensures
        forall|d: nat| #[trigger] edge_value(r, e, d) is None,
{
    assert forall|d: nat| #[trigger] edge_value(r, e, d) is None by {
        if node_out(r, n, d) is Some {
            if d <= k {
                lemma_depth(r, n, d, k);
            } else {
                lemma_depth(r, n, k, d);
            }
        }
    }
}

impl Model<Element> {
    /// The operands of a run on the given inputs.
    pub open spec fn run_view(self, input: Seq<Tensor<Element>>) -> RunView {
        RunView {
            g: self.g(),
            xs: tviews(input),
            us: shapes(self.unpadded_input_shapes@),
        }
    }

    /// Makes the step of a node whose inputs are there. Fails where an input names an output that
    /// does not exist, or where the layer fails.
    fn make_step(
        &self,
        id: NodeId,
        steps: &HashMap<NodeId, StepData<Element>>,
        input: &[Tensor<Element>],
        Ghost(k): Ghost<nat>,
    ) -> (res: Result<StepData<Element>, ModelError>)
        requires
            self.nodes@.contains_key(id),
            k <= self.nodes@.dom().len(),
            steps_ok(self.run_view(input@), steps@, k),
            inputs_done(self.nodes@[id].inputs@, steps@.dom()),
        ensures
            ({
                let r = self.run_view(input@);
                match res {
                    Ok(s) => Some(s.v()) == node_out(r, id, k + 1) && step_inputs_are(
                        r,
                        id,
                        k,
                        s,
                    ),
                    Err(e) => {
                        &&& forall|d: nat| #[trigger] node_out(r, id, d) is None
                        &&& node_fails(r, id, e.message@)
                    },
                }
            }),
    {
        let ghost r = self.run_view(input@);
        let ghost depth = r.g.dom().len();
        let node = match self.nodes.get(&id) {
            Some(n) => n,
            None => {
                return model_err("A node is not part of the model");
            },
        };
        assert(r.g[id] == node@);
        assert(r.g.contains_key(id));
        proof {
            assert(r.g.dom() =~= self.nodes@.dom());
            lemma_sources_known(r, id, steps@, k);
        }
        let mut inputs: Vec<&Tensor<Element>> = Vec::new();
        let mut in_shapes: Vec<Vec<usize>> = Vec::new();
        let mut i: usize = 0;
        while i < node.inputs.len()
            invariant
                r == self.run_view(input@),
                depth == r.g.dom().len(),
                k <= depth,
                sources_known(r, id),
                r.g.contains_key(id),
                r.g[id] == node@,
                steps_ok(r, steps@, k),
                inputs_done(node.inputs@, steps@.dom()),
                i <= node.inputs@.len(),
                inputs.len() == i,
                in_shapes.len() == i,
                forall|j: int|
                    0 <= j < i ==> #[trigger] edge_value(r, node.inputs@[j], k) == Some(
                        (inputs@[j]@, in_shapes@[j]@),
                    ),
            decreases node.inputs@.len() - i,
        {
            let edge = node.inputs[i];
            if let Some(n) = edge.node {
                assert(steps@.dom().contains(node.inputs@[i as int].node->0));
                match steps.get(&n) {
                    Some(step) => {
                        let ghost v = step.v();
                        assert(Some(v) == node_out(r, n, k));
                        let outs = step.outputs();
                        assert(v.outputs.len() == outs@.len());
                        assert(v.shapes.len() == step.unpadded_output_shapes@.len());
                        if edge.index >= outs.len() || edge.index
                            >= step.unpadded_output_shapes.len() {
                            proof {
                                lemma_edge_never(r, edge, n, k);
                                assert forall|d: nat| #[trigger] node_out(r, id, d) is None by {
                                    lemma_input_fails(r, id, i as int, d);
                                }
                                lemma_depth(r, n, k, depth);
                                lemma_first_unknown(r, id, k, i as int);
                            }
                            if edge.index >= outs.len() {
                                return Err(
                                    ModelError { message: request_text(edge.index, n, outs.len()) },
                                );
                            }
                            return Err(ModelError { message: shape_text(edge.index, n) });
                        }
                        inputs.push(&outs[edge.index]);
                        in_shapes.push(
                            vstd::slice::slice_to_vec(
                                step.unpadded_output_shapes[edge.index].as_slice(),
                            ),
                        );
                    },
                    None => {
                        return model_err("A node is not part of the model");
                    },
                }
            } else {
                if edge.index >= input.len() || edge.index >= self.unpadded_input_shapes.len() {
                    proof {
                        assert forall|d: nat| #[trigger] node_out(r, id, d) is None by {
                            lemma_input_fails(r, id, i as int, d);
                        }
                        lemma_first_unknown(r, id, k, i as int);
                    }
                    let count = if input.len() <= self.unpadded_input_shapes.len() {
                        input.len()
                    } else {
                        self.unpadded_input_shapes.len()
                    };
                    return Err(ModelError { message: model_input_text(edge.index, count) });
                }
                inputs.push(&input[edge.index]);
                in_shapes.push(
                    vstd::slice::slice_to_vec(
                        self.unpadded_input_shapes[edge.index].as_slice(),
                    ),
                );
            }
            i = i + 1;
        }
        let ghost vals = input_values(r, id, k);
        proof {
            assert(all_known(vals)) by {
                assert forall|j: int| 0 <= j < vals.len() implies #[trigger] vals[j] is Some by {
                    assert(edge_value(r, node.inputs@[j], k) == Some(
                        (inputs@[j]@, in_shapes@[j]@),
                    ));
                }
            }
            assert forall|j: int| 0 <= j < vals.len() implies vals[j] == Some(
                (inputs@[j]@, in_shapes@[j]@),
            ) by {
                assert(edge_value(r, node.inputs@[j], k) == Some(
                    (inputs@[j]@, in_shapes@[j]@),
                ));
            }
            assert(ref_views(inputs@) =~= Seq::new(vals.len(), |i: int| (vals[i]->0).0));
            assert(shapes(in_shapes@) =~= Seq::new(vals.len(), |i: int| (vals[i]->0).1));
            lemma_node_out(r, id, k + 1);
            lemma_values_deeper(r, id, k, depth);
        }
        if !node.operation.accepts_shapes(in_shapes.as_slice(), PaddingMode::NoPadding) {
            proof {
                assert forall|d: nat| #[trigger] node_out(r, id, d) is None by {
                    lemma_node_fails(r, id, k, d);
                }
            }
            return model_err("The shapes of the inputs do not go with the layer");
        }
        let unpadded_output_shapes = node.operation.output_shapes(
            in_shapes.as_slice(),
            PaddingMode::NoPadding,
        );
        match node.run(inputs.as_slice(), in_shapes.as_slice()) {
            Ok(outputs) => {
                let mut copies: Vec<Tensor<Element>> = Vec::new();
                let mut j: usize = 0;
                while j < inputs.len()
                    invariant
                        j <= inputs@.len(),
                        copies.len() == j,
                        forall|l: int| 0 <= l < j ==> (#[trigger] copies@[l])@ == inputs@[l]@,
                    decreases inputs@.len() - j,
                {
                    copies.push(inputs[j].copy());
                    j = j + 1;
                }
                let step = StepData { inputs: copies, outputs, unpadded_output_shapes };
                proof {
                    assert forall|l: int| 0 <= l < step.inputs@.len() implies #[trigger] step_input_is(
                        r,
                        id,
                        k,
                        step,
                        l,
                    ) by {
                        assert(edge_value(r, node.inputs@[l], k) == Some(
                            (inputs@[l]@, in_shapes@[l]@),
                        ));
                    }
                }
                Ok(step)
            },
            Err(e) => {
                proof {
                    assert forall|d: nat| #[trigger] node_out(r, id, d) is None by {
                        lemma_node_fails(r, id, k, d);
                    }
                }
                Err(ModelError { message: e.message() })
            },
        }
    }

    /// A node that has not made its step and whose inputs are there, if there is one.
    fn find_ready(&self, ids: &Vec<NodeId>, steps: &HashMap<NodeId, StepData<Element>>) -> (r:
        Option<NodeId>)
        requires
            ids@.to_set() == self.nodes@.dom(),
        ensures
            match r {
                Some(id) => self.nodes@.contains_key(id) && !steps@.contains_key(id)
                    && inputs_done(self.nodes@[id].inputs@, steps@.dom()),
                None => forall|id: NodeId| #[trigger]
                    self.nodes@.contains_key(id) && !steps@.contains_key(id) ==> !inputs_done(
                        self.nodes@[id].inputs@,
                        steps@.dom(),
                    ),
            },
    {
        let mut i: usize = 0;
        while i < ids.len()
            invariant
                ids@.to_set() == self.nodes@.dom(),
                i <= ids@.len(),
                forall|j: int|
                    0 <= j < i && !steps@.contains_key(ids@[j]) ==> !inputs_done(
                        self.nodes@[#[trigger] ids@[j]].inputs@,
                        steps@.dom(),
                    ),
            decreases ids@.len() - i,
        {
            let id = ids[i];
            assert(ids@.to_set().contains(ids@[i as int]));
            if !steps.contains_key(&id) {
                if let Some(node) = self.nodes.get(&id) {
                    if inputs_made(&node.inputs, steps) {
                        return Some(id);
                    }
                }
            }
            i = i + 1;
        }
        assert forall|id: NodeId| #[trigger]
            self.nodes@.contains_key(id) && !steps@.contains_key(id) implies !inputs_done(
            self.nodes@[id].inputs@,
            steps@.dom(),
        ) by {
            assert(ids@.to_set().contains(id));
            let j = choose|j: int| 0 <= j < ids@.len() && ids@[j] == id;
            assert(ids@[j] == id);
        }
        None
    }

    /// Makes the steps of all nodes, each once its inputs are there. Fails where that cannot be.
    fn make_steps(&self, input: &[Tensor<Element>]) -> (res: Result<
        HashMap<NodeId, StepData<Element>>,
        ModelError,
    >)
        ensures
            ({
                let r = self.run_view(input@);
                let depth = r.g.dom().len();
                &&& res is Ok <==> all_made(r)
                &&& res matches Ok(s) ==> s@.dom() == r.g.dom() && steps_ok(r, s@, depth)
                &&& res matches Err(e) ==> step_fault(r, e.message@)
            }),
    {
        let ghost r = self.run_view(input@);
        let ids = self.node_ids();
        let mut steps: HashMap<NodeId, StepData<Element>> = HashMap::new();
        let n = ids.len();
        proof {
            ids@.unique_seq_to_set();
            assert(r.g.dom() =~= self.nodes@.dom());
        }
        let mut k: usize = 0;
        while k < n
            invariant
                r == self.run_view(input@),
                ids@.to_set() == self.nodes@.dom(),
                r.g.dom() == self.nodes@.dom(),
                n == r.g.dom().len(),
                k <= n,
                steps@.dom().len() == k,
                steps@.dom().finite(),
                steps@.dom().subset_of(r.g.dom()),
                steps_ok(r, steps@, k as nat),
            decreases n - k,
        {
            match self.find_ready(&ids, &steps) {
                Some(id) => {
                    match self.make_step(id, &steps, input, Ghost(k as nat)) {
                        Ok(step) => {
                            let ghost before = steps@;
                            steps.insert(id, step);
                            proof {
                                lemma_steps_deeper(r, before, k as nat, (k + 1) as nat);
                                lemma_one_deeper(r, id, k as nat, step);
                            }
                        },
                        Err(e) => {
                            proof {
                                assert(r.g.contains_key(id));
                                assert(node_out(r, id, n as nat) is None);
                                assert(node_fails(r, id, e.message@));
                            }
                            return Err(e);
                        },
                    }
                },
                None => {
                    proof {
                        let waiting = r.g.dom().difference(steps@.dom());
                        lemma_waiting(*self, r, steps@);
                        // some node is left
                        assert(exists|id: NodeId| waiting.contains(id)) by {
                            if forall|id: NodeId| !waiting.contains(id) {
                                assert forall|id: NodeId| r.g.dom().contains(
                                    id,
                                ) implies steps@.dom().contains(id) by {
                                    assert(!waiting.contains(id));
                                }
                                vstd::set_lib::lemma_len_subset(r.g.dom(), steps@.dom());
                            }
                        }
                        let id = choose|id: NodeId| waiting.contains(id);
                        lemma_stuck(r, waiting, id, n as nat);
                        assert(r.g.contains_key(id));
                        lemma_none_fails(r, steps@, k as nat, waiting);
                    }
                    return model_err("The nodes of the model cannot be put in order");
                },
            }
            k = k + 1;
        }
        proof {
            vstd::set_lib::lemma_subset_equality(steps@.dom(), r.g.dom());
            assert forall|id: NodeId| #[trigger] r.g.contains_key(id) implies node_out(
                r,
                id,
                r.g.dom().len(),
            ) is Some by {
                assert(steps@.contains_key(id));
            }
        }
        Ok(steps)
    }
}

/// A node whose inputs come from nodes that made their steps has known sources.
proof fn lemma_sources_known(
    r: RunView,
    id: NodeId,
    steps: Map<NodeId, StepData<Element>>,
    k: nat,
)
    requires
        k <= r.g.dom().len(),
        steps_ok(r, steps, k),
        inputs_done(r.g[id].inputs, steps.dom()),
    ensures
        sources_known(r, id),
{
    let inputs = r.g[id].inputs;
    assert forall|i: int| 0 <= i < inputs.len() && inputs[i].node is Some implies node_out(
        r,
        (#[trigger] inputs[i]).node->0,
        r.g.dom().len(),
    ) is Some by {
        let n = inputs[i].node->0;
        assert(steps.contains_key(n));
        lemma_depth(r, n, k, r.g.dom().len());
    }
}

/// The first input of a node that is not there is the first however far one looks.
proof fn lemma_first_unknown(r: RunView, id: NodeId, k: nat, i: int)
    requires
        k <= r.g.dom().len(),
        r.g.contains_key(id),
        0 <= i < r.g[id].inputs.len(),
        forall|j: int| 0 <= j < i ==> #[trigger] edge_value(r, r.g[id].inputs[j], k) is Some,
        forall|d: nat| #[trigger] edge_value(r, r.g[id].inputs[i], d) is None,
    ensures
        first_unknown(input_values(r, id, r.g.dom().len()), i),
        !all_known(input_values(r, id, r.g.dom().len())),
{
    let depth = r.g.dom().len();
    let vals = input_values(r, id, depth);
    assert forall|j: int| 0 <= j < i implies #[trigger] vals[j] is Some by {
        assert(edge_value(r, r.g[id].inputs[j], k) is Some);
        lemma_edge_depth(r, r.g[id].inputs[j], k, depth);
    }
    assert(edge_value(r, r.g[id].inputs[i], depth) is None);
    assert(!(vals[i] is Some));
}

/// Inputs that are known stay the same however far one looks.
proof fn lemma_values_deeper(r: RunView, id: NodeId, k: nat, depth: nat)
    requires
        k <= depth,
        all_known(input_values(r, id, k)),
    ensures
        input_values(r, id, depth) == input_values(r, id, k),
{
    let a = input_values(r, id, k);
    let b = input_values(r, id, depth);
    assert forall|j: int| 0 <= j < a.len() implies a[j] == b[j] by {
        assert(a[j] is Some);
        lemma_edge_depth(r, r.g[id].inputs[j], k, depth);
    }
    assert(a =~= b);
}

/// Where the nodes that made their steps are given, and the others wait for one another, no node
/// fails by itself.
proof fn lemma_none_fails(
    r: RunView,
    steps: Map<NodeId, StepData<Element>>,
    k: nat,
    waiting: Set<NodeId>,
)
    requires
        k <= r.g.dom().len(),
        steps_ok(r, steps, k),
        waiting == r.g.dom().difference(steps.dom()),
        forall|n: NodeId| #[trigger] waiting.contains(n) ==> waits(r, waiting, n),
    ensures
        forall|id: NodeId, t: Seq<char>| !#[trigger] node_fails(r, id, t),
{
    let depth = r.g.dom().len();
    assert forall|id: NodeId, t: Seq<char>| !#[trigger] node_fails(r, id, t) by {
        if r.g.contains_key(id) && waiting.contains(id) {
            assert(waits(r, waiting, id));
            let i = choose|i: int|
                0 <= i < r.g[id].inputs.len() && waits_for(
                    r,
                    waiting,
                    #[trigger] r.g[id].inputs[i],
                );
            let n = r.g[id].inputs[i].node->0;
            if waiting.contains(n) {
                lemma_stuck(r, waiting, n, depth);
            }
            assert(node_out(r, n, depth) is None);
            assert(!sources_known(r, id));
        } else if r.g.contains_key(id) {
            assert(steps.contains_key(id));
            lemma_depth(r, id, k, depth);
            lemma_depth(r, id, depth, depth + 1);
            lemma_node_out(r, id, depth + 1);
        }
    }
}

/// The step of a node, looked at from one node further.
proof fn lemma_one_deeper(r: RunView, id: NodeId, k: nat, s: StepData<Element>)
    requires
        step_inputs_are(r, id, k, s),
    ensures
        step_inputs_are(r, id, k + 1, s),
{
    assert forall|i: int| 0 <= i < s.inputs@.len() implies #[trigger] step_input_is(
        r,
        id,
        k + 1,
        s,
        i,
    ) by {
        assert(step_input_is(r, id, k, s, i));
        lemma_edge_depth(r, r.g[id].inputs[i], k, k + 1);
    }
}

/// Where no node is ready, each that is left waits for one that is left or does not exist.
proof fn lemma_waiting(m: Model<Element>, r: RunView, steps: Map<NodeId, StepData<Element>>)
    requires
        r.g == m.g(),
        steps.dom().subset_of(r.g.dom()),
        forall|id: NodeId| #[trigger]
            m.nodes@.contains_key(id) && !steps.contains_key(id) ==> !inputs_done(
                m.nodes@[id].inputs@,
                steps.dom(),
            ),
    ensures
        ({
            let waiting = r.g.dom().difference(steps.dom());
            forall|n: NodeId| #[trigger] waiting.contains(n) ==> waits(r, waiting, n)
        }),
{
    let waiting = r.g.dom().difference(steps.dom());
    assert forall|n: NodeId| #[trigger] waiting.contains(n) implies waits(r, waiting, n) by {
        assert(m.nodes@.contains_key(n) && !steps.contains_key(n));
        let inputs = m.nodes@[n].inputs@;
        assert(r.g[n].inputs == inputs);
        let i = choose|i: int|
            0 <= i < inputs.len() && inputs[i].node is Some && !steps.dom().contains(
                (#[trigger] inputs[i]).node->0,
            );
        assert(waits_for(r, waiting, r.g[n].inputs[i]));
    }
}

/// Whether the nodes that the inputs come from have made their steps.
fn inputs_made(inputs: &Vec<Edge>, steps: &HashMap<NodeId, StepData<Element>>) -> (r: bool)
    ensures
        r == inputs_done(inputs@, steps@.dom()),
{
    let mut i: usize = 0;
    while i < inputs.len()
        invariant
            i <= inputs@.len(),
            forall|j: int|
                0 <= j < i && inputs@[j].node is Some ==> steps@.dom().contains(
                    (#[trigger] inputs@[j]).node->0,
                ),
        decreases inputs@.len() - i,
    {
        if let Some(n) = inputs[i].node {
            if !steps.contains_key(&n) {
                assert(!steps@.dom().contains(inputs@[i as int].node->0));
                return false;
            }
        }
        i = i + 1;
    }
    true
}

/// An output of a node that is an output of the model: the number of the latter, the node, and the
/// number of the output of the node.
pub type OutputEntry = (usize, NodeId, usize);

/// The entry is right.
pub open spec fn entry_ok<N>(g: Map<NodeId, NodeView<N>>, e: OutputEntry) -> bool {
    is_model_output(g, e.1, e.2 as int, e.0)
}

/// No output of a node has two entries.
pub open spec fn entries_distinct(s: Seq<OutputEntry>) -> bool {
    forall|a: int, b: int|
        0 <= a < b < s.len() ==> (#[trigger] s[a]).1 != (#[trigger] s[b]).1 || s[a].2 != s[b].2
}

/// The output of the node has an entry.
pub open spec fn has_entry(s: Seq<OutputEntry>, id: NodeId, w: int) -> bool {
    exists|j: int| 0 <= j < s.len() && (#[trigger] s[j]).1 == id && s[j].2 == w
}

/// The entries are all that there are, each once.
pub open spec fn entries_are<N>(g: Map<NodeId, NodeView<N>>, s: Seq<OutputEntry>) -> bool {
    &&& forall|j: int| 0 <= j < s.len() ==> entry_ok(g, #[trigger] s[j])
    &&& entries_distinct(s)
    &&& forall|id: NodeId, w: int, k: usize| #[trigger]
        is_model_output(g, id, w, k) ==> has_entry(s, id, w)
}

/// The numbers of the outputs of the model that the entries stand for.
pub open spec fn entry_numbers(s: Seq<OutputEntry>) -> Seq<usize> {
    Seq::new(s.len(), |j: int| s[j].0)
}

/// Well numbered outputs are as many as there are entries.
proof fn lemma_entry_count<N>(g: Map<NodeId, NodeView<N>>, s: Seq<OutputEntry>, m: nat)
    requires
        entries_are(g, s),
        outputs_numbered(g, m),
    ensures
        m == s.len(),
{
    let ks = entry_numbers(s);
    lemma_below(m);
    // each number below m has an entry
    assert(below(m).subset_of(ks.to_set())) by {
        assert forall|k: usize| below(m).contains(k) implies ks.to_set().contains(k) by {
            assert(has_output(g, k));
            let (id, w) = choose|id: NodeId, w: int| #[trigger] is_model_output(g, id, w, k);
            assert(has_entry(s, id, w));
            let j = choose|j: int| 0 <= j < s.len() && (#[trigger] s[j]).1 == id && s[j].2 == w;
            assert(entry_ok(g, s[j]));
            assert(ks[j] == k);
        }
    }
    ks.lemma_cardinality_of_set();
    vstd::set_lib::lemma_len_subset(below(m), ks.to_set());
    // and no two entries have the same number
    assert(ks.no_duplicates()) by {
        assert forall|a: int, b: int| 0 <= a < ks.len() && 0 <= b < ks.len() && a != b implies ks[a]
            != ks[b] by {
            assert(entry_ok(g, s[a]));
            assert(entry_ok(g, s[b]));
            if ks[a] == ks[b] {
                assert(is_model_output(g, s[a].1, s[a].2 as int, ks[a]));
                assert(is_model_output(g, s[b].1, s[b].2 as int, ks[a]));
                if a < b {
                    assert(s[a].1 != s[b].1 || s[a].2 != s[b].2);
                } else {
                    assert(s[b].1 != s[a].1 || s[b].2 != s[a].2);
                }
            }
        }
    }
    ks.unique_seq_to_set();
    assert(ks.to_set().subset_of(below(m))) by {
        assert forall|k: usize| ks.to_set().contains(k) implies below(m).contains(k) by {
            let j = choose|j: int| 0 <= j < ks.len() && ks[j] == k;
            assert(entry_ok(g, s[j]));
        }
    }
    vstd::set_lib::lemma_len_subset(ks.to_set(), below(m));
}

impl<N> Model<N> {
    /// The outputs of the nodes that are outputs of the model.
    fn output_entries(&self) -> (r: Vec<OutputEntry>)
        ensures
            entries_are(self.g(), r@),
    {
        let ids = self.node_ids();
        let ghost g = self.g();
        let mut r: Vec<OutputEntry> = Vec::new();
        let mut i: usize = 0;
        while i < ids.len()
            invariant
                g == self.g(),
                ids@.no_duplicates(),
                ids@.to_set() == self.nodes@.dom(),
                i <= ids@.len(),
                forall|j: int|
                    0 <= j < r@.len() ==> entry_ok(g, #[trigger] r@[j]) && ids@.take(
                        i as int,
                    ).contains(r@[j].1),
                entries_distinct(r@),
                forall|p: int, w: int, k: usize|
                    0 <= p < i && #[trigger] is_model_output(g, ids@[p], w, k) ==> has_entry(
                        r@,
                        ids@[p],
                        w,
                    ),
            decreases ids@.len() - i,
        {
            let id = ids[i];
            assert(ids@.to_set().contains(ids@[i as int]));
            if let Some(node) = self.nodes.get(&id) {
                let ghost before = r@;
                let mut w: usize = 0;
                assert(g[id] == node@);
                while w < node.outputs.len()
                    invariant
                        g == self.g(),
                        g.contains_key(id),
                        g[id] == node@,
                        ids@.no_duplicates(),
                        i < ids@.len(),
                        id == ids@[i as int],
                        w <= node.outputs@.len(),
                        before.len() <= r@.len(),
                        r@.take(before.len() as int) == before,
                        forall|j: int|
                            0 <= j < before.len() ==> ids@.take(i as int).contains(
                                (#[trigger] before[j]).1,
                            ),
                        forall|j: int| 0 <= j < r@.len() ==> entry_ok(g, #[trigger] r@[j]),
                        forall|j: int|
                            before.len() <= j < r@.len() ==> (#[trigger] r@[j]).1 == id && r@[j].2
                                < w,
                        entries_distinct(r@),
                        forall|u: int, k: usize|
                            0 <= u < w && #[trigger] is_model_output(g, id, u, k) ==> has_entry(
                                r@,
                                id,
                                u,
                            ),
                    decreases node.outputs@.len() - w,
                {
                    let ghost inner = r@;
                    match wire_output(&node.outputs[w]) {
                        Some(k) => {
                            r.push((k, id, w));
                            proof {
                                assert(g[id].outputs[w as int] == node.outputs@[w as int].edges@);
                                assert(entry_ok(g, (k, id, w)));
                                assert forall|j: int| 0 <= j < inner.len() implies (
                                #[trigger] inner[j]).1 != id || inner[j].2 != w by {
                                    if j < before.len() {
                                        assert(before[j] == r@.take(before.len() as int)[j]);
                                        assert(ids@.take(i as int).contains(before[j].1));
                                    }
                                }
                                assert(entries_distinct(r@)) by {
                                    assert forall|a: int, b: int| 0 <= a < b < r@.len() implies (
                                    #[trigger] r@[a]).1 != (#[trigger] r@[b]).1 || r@[a].2
                                        != r@[b].2 by {
                                        assert(r@[a] == inner[a]);
                                        if b < inner.len() {
                                            assert(r@[b] == inner[b]);
                                        }
                                    }
                                }
                                assert(has_entry(r@, id, w as int)) by {
                                    assert(r@[inner.len() as int] == (k, id, w));
                                }
                                assert(r@.take(before.len() as int) =~= before);
                            }
                        },
                        None => {
                            assert(g[id].outputs[w as int] == node.outputs@[w as int].edges@);
                        },
                    }
                    proof {
                        assert forall|u: int, k: usize|
                            0 <= u < w + 1 && #[trigger] is_model_output(
                                g,
                                id,
                                u,
                                k,
                            ) implies has_entry(r@, id, u) by {
                            if u < w {
                                assert(has_entry(inner, id, u));
                                let j = choose|j: int|
                                    0 <= j < inner.len() && (#[trigger] inner[j]).1 == id
                                        && inner[j].2 == u;
                                assert(r@[j] == inner[j]);
                            }
                        }
                    }
                    w = w + 1;
                }
                proof {
                    assert forall|p: int, u: int, k: usize|
                        0 <= p < i + 1 && #[trigger] is_model_output(
                            g,
                            ids@[p],
                            u,
                            k,
                        ) implies has_entry(r@, ids@[p], u) by {
                        if p < i {
                            assert(has_entry(before, ids@[p], u));
                            let j = choose|j: int|
                                0 <= j < before.len() && (#[trigger] before[j]).1 == ids@[p]
                                    && before[j].2 == u;
                            assert(r@[j] == r@.take(before.len() as int)[j]);
                        }
                    }
                    assert forall|j: int| 0 <= j < r@.len() implies entry_ok(g, #[trigger] r@[j])
                        && ids@.take(i + 1).contains(r@[j].1) by {
                        if j < before.len() {
                            assert(r@[j] == r@.take(before.len() as int)[j]);
                            assert(ids@.take(i as int).contains(before[j].1));
                            let q = choose|q: int|
                                0 <= q < i && ids@.take(i as int)[q] == before[j].1;
                            assert(ids@.take(i + 1)[q] == before[j].1);
                        } else {
                            assert(ids@.take(i + 1)[i as int] == id);
                        }
                    }
                }
            }
            i = i + 1;
        }
        proof {
            assert forall|id: NodeId, w: int, k: usize| #[trigger]
                is_model_output(g, id, w, k) implies has_entry(r@, id, w) by {
                assert(ids@.to_set().contains(id));
                let p = choose|p: int| 0 <= p < ids@.len() && ids@[p] == id;
                assert(is_model_output(g, ids@[p], w, k));
            }
        }
        r
    }

    /// The nodes at least one of whose outputs is an output of the model, with their numbers, each
    /// once, in no particular order.
    pub fn output_nodes(&self) -> (r: Vec<(NodeId, &Node<N>)>)
        ensures
            ids_of(r@).no_duplicates(),
            forall|id: NodeId| #[trigger]
                ids_of(r@).contains(id) <==> self.g().contains_key(
                    id,
                ) && is_output_node(self.g()[id]),
            forall|i: int|
                0 <= i < r@.len() ==> *(#[trigger] r@[i]).1 == self.nodes@[r@[i].0],
    {
        self.nodes_where(true)
    }

    /// The nodes that can be proved, with their numbers, each once, in no particular order.
    pub fn provable_nodes(&self) -> (r: Vec<(NodeId, &Node<N>)>)
        ensures
            ids_of(r@).no_duplicates(),
            forall|id: NodeId| #[trigger]
                ids_of(r@).contains(id) <==> self.g().contains_key(
                    id,
                ) && self.g()[id].operation.provable(),
            forall|i: int|
                0 <= i < r@.len() ==> *(#[trigger] r@[i]).1 == self.nodes@[r@[i].0],
    {
        self.nodes_where(false)
    }

    /// The nodes that give outputs of the model, or those that can be proved.
    fn nodes_where(&self, outputs: bool) -> (r: Vec<(NodeId, &Node<N>)>)
        ensures
            ids_of(r@).no_duplicates(),
            forall|id: NodeId| #[trigger]
                ids_of(r@).contains(id) <==> self.g().contains_key(
                    id,
                ) && wanted(self.g()[id], outputs),
            forall|i: int|
                0 <= i < r@.len() ==> *(#[trigger] r@[i]).1 == self.nodes@[r@[i].0],
    {
        let ids = self.node_ids();
        let ghost g = self.g();
        let mut r: Vec<(NodeId, &Node<N>)> = Vec::new();
        let mut i: usize = 0;
        while i < ids.len()
            invariant
                g == self.g(),
                ids@.no_duplicates(),
                ids@.to_set() == self.nodes@.dom(),
                i <= ids@.len(),
                ids_of(r@).no_duplicates(),
                forall|id: NodeId| #[trigger]
                    ids_of(r@).contains(id) <==> ids@.take(i as int).contains(id)
                        && wanted(g[id], outputs),
                forall|j: int|
                    0 <= j < r@.len() ==> *(#[trigger] r@[j]).1 == self.nodes@[r@[j].0],
            decreases ids@.len() - i,
        {
            let id = ids[i];
            assert(ids@.to_set().contains(ids@[i as int]));
            assert(ids@.take(i + 1) =~= ids@.take(i as int).push(id));
            let ghost before = r@;
            if let Some(node) = self.nodes.get(&id) {
                assert(g[id] == node@);
                let keep = if outputs {
                    node.gives_output()
                } else {
                    node.is_provable()
                };
                if keep {
                    r.push((id, node));
                }
                proof {
                    let old_ids = ids_of(before);
                    let new_ids = ids_of(r@);
                    assert(!ids@.take(i as int).contains(id));
                    assert(!old_ids.contains(id));
                    if keep {
                        assert(new_ids =~= old_ids.push(id));
                    }
                    assert forall|x: NodeId| #[trigger] new_ids.contains(x) <==> ids@.take(
                        i + 1,
                    ).contains(x) && wanted(g[x], outputs) by {
                        assert(ids@.take(i as int).push(id).contains(x) <==> ids@.take(
                            i as int,
                        ).contains(x) || x == id) by {
                            lemma_push_contains(ids@.take(i as int), id, x);
                        }
                        lemma_push_contains(old_ids, id, x);
                        assert(old_ids.contains(x) <==> ids@.take(i as int).contains(x) && wanted(
                            g[x],
                            outputs,
                        ));
                    }
                }
            }
            i = i + 1;
        }
        proof {
            assert(ids@.take(ids@.len() as int) =~= ids@);
            assert forall|id: NodeId| #[trigger]
                ids_of(r@).contains(id) <==> g.contains_key(id) && wanted(
                g[id],
                outputs,
            ) by {
                assert(ids@.contains(id) <==> ids@.to_set().contains(id));
            }
        }
        r
    }
}

/// The numbers of the listed nodes.
pub open spec fn ids_of<N>(s: Seq<(NodeId, &Node<N>)>) -> Seq<NodeId> {
    Seq::new(s.len(), |i: int| s[i].0)
}

/// The node gives an output of the model, or it can be proved.
pub open spec fn wanted<N>(n: NodeView<N>, outputs: bool) -> bool {
    if outputs {
        is_output_node(n)
    } else {
        n.operation.provable()
    }
}

proof fn lemma_push_contains(s: Seq<NodeId>, y: NodeId, x: NodeId)
    ensures
        s.push(y).contains(x) <==> s.contains(x) || x == y,
{
    if s.contains(x) {
        let j = choose|j: int| 0 <= j < s.len() && s[j] == x;
        assert(s.push(y)[j] == x);
    }
    if x == y {
        assert(s.push(y)[s.len() as int] == x);
    }
}

impl<N> Node<N> {
    /// Whether some output of the node is an output of the model.
    pub fn gives_output(&self) -> (r: bool)
        ensures
            r == is_output_node(self@),
    {
        let mut w: usize = 0;
        while w < self.outputs.len()
            invariant
                w <= self.outputs@.len(),
                forall|u: int| 0 <= u < w ==> output_index(#[trigger] self@.outputs[u]) is None,
            decreases self.outputs@.len() - w,
        {
            assert(self@.outputs[w as int] == self.outputs@[w as int].edges@);
            if wire_output(&self.outputs[w]).is_some() {
                assert(output_index(self@.outputs[w as int]) is Some);
                return true;
            }
            w = w + 1;
        }
        false
    }
}

impl Model<Element> {
    /// Runs the model on the given inputs. Succeeds exactly where every node can make its step, the
    /// nodes that give outputs of the model give as many as they have wires, and the outputs of the
    /// model are numbered from zero on without gaps, each once. Fails with the message that
    /// `run_fault` tells.
    pub fn run(&self, input: &[Tensor<Element>]) -> (res: Result<
        InferenceTrace<Element>,
        ModelError,
    >)
        ensures
            res is Ok <==> runs(self.run_view(input@)),
            res is Ok ==> trace_is(self.run_view(input@), res->Ok_0),
            res matches Err(e) ==> run_fault(self.run_view(input@), e.message@),
    {
        let ghost r = self.run_view(input@);
        let ghost depth = r.g.dom().len();
        let steps = match self.make_steps(input) {
            Ok(s) => s,
            Err(e) => {
                return Err(e);
            },
        };
        match self.wrong_count(&steps, Ghost(r)) {
            Some(id) => {
                assert(count_differs(r, id));
                return Err(ModelError { message: count_text(id) });
            },
            None => {},
        }
        let entries = self.output_entries();
        let n = entries.len();
        match find_twice(&entries) {
            Some(k) => {
                proof {
                    lemma_twice(r.g, entries@, k);
                }
                return Err(ModelError { message: twice_text(k) });
            },
            None => {},
        }
        proof {
            lemma_not_twice(r.g, entries@);
        }
        if n == 0 {
            proof {
                if exists|m: nat| outputs_numbered(r.g, m) {
                    let m = choose|m: nat| outputs_numbered(r.g, m);
                    lemma_entry_count(r.g, entries@, m);
                }
                assert forall|k: usize| !#[trigger] has_output(r.g, k) by {
                    if has_output(r.g, k) {
                        let (id, w) = choose|id: NodeId, w: int| #[trigger]
                            is_model_output(r.g, id, w, k);
                        assert(has_entry(entries@, id, w));
                    }
                }
            }
            return model_err("No outputs found for the model");
        }
        proof {
            assert(entry_ok(r.g, entries@[0]));
            assert(has_output(r.g, entries@[0].0));
        }
        let slots = match self.fill_slots(&entries, &steps, Ghost(r)) {
            Some(s) => s,
            None => {
                return gap_err();
            },
        };
        let mut i: usize = 0;
        let mut output: Vec<Tensor<Element>> = Vec::new();
        while i < n
            invariant
                r == self.run_view(input@),
                n == entries@.len(),
                slots.len() == n,
                entries_are(r.g, entries@),
                forall|j: int| 0 <= j < n ==> slot_ok(r, #[trigger] entries@[j], slots@),
                all_made(r),
                forall|id: NodeId| !#[trigger] count_differs(r, id),
                forall|k: usize| !#[trigger] twice(r.g, k),
                has_output(r.g, entries@[0].0),
                i <= n,
                output.len() == i,
                forall|k: int|
                    0 <= k < i ==> #[trigger] slots@[k] is Some && output@[k]@ == slots@[k]->0@,
            decreases n - i,
        {
            match &slots[i] {
                Some(t) => {
                    output.push(t.copy());
                },
                None => {
                    proof {
                        if exists|m: nat| outputs_numbered(r.g, m) {
                            let m = choose|m: nat| outputs_numbered(r.g, m);
                            lemma_entry_count(r.g, entries@, m);
                            lemma_entry_for(r.g, entries@, m, i);
                        }
                    }
                    return gap_err();
                },
            }
            i = i + 1;
        }
        let mut copies: Vec<Tensor<Element>> = Vec::new();
        i = 0;
        while i < input.len()
            invariant
                i <= input@.len(),
                copies.len() == i,
                forall|j: int| 0 <= j < i ==> (#[trigger] copies@[j])@ == input@[j]@,
            decreases input@.len() - i,
        {
            copies.push(input[i].copy());
            i = i + 1;
        }
        let trace = InferenceTrace { steps, input: copies, output };
        proof {
            assert(tviews(trace.input@) =~= r.xs);
            lemma_numbered(r.g, entries@, slots@);
            assert forall|id: NodeId, w: int, k: usize| #[trigger]
                is_model_output(r.g, id, w, k) implies trace.output@[k as int]@ == (node_out(
                r,
                id,
                depth,
            )->0).outputs[w] by {
                assert(has_entry(entries@, id, w));
                let j = choose|j: int|
                    0 <= j < entries@.len() && (#[trigger] entries@[j]).1 == id && entries@[j].2
                        == w;
                assert(entry_ok(r.g, entries@[j]));
                assert(slot_ok(r, entries@[j], slots@));
                assert(slots@[k as int] is Some);
            }
        }
        Ok(trace)
    }

    /// Puts each output of the model into its place; none where a place does not exist.
    fn fill_slots(
        &self,
        entries: &Vec<OutputEntry>,
        steps: &HashMap<NodeId, StepData<Element>>,
        Ghost(r): Ghost<RunView>,
    ) -> (res: Option<Vec<Option<Tensor<Element>>>>)
        requires
            r.g == self.g(),
            entries_are(r.g, entries@),
            steps@.dom() == r.g.dom(),
            steps_ok(r, steps@, r.g.dom().len()),
            counts_ok(r),
            numbers_distinct(entries@, entries@.len() as int),
        ensures
            res is None ==> !exists|m: nat| outputs_numbered(r.g, m),
            res is Some ==> {
                &&& res->0@.len() == entries@.len()
                &&& forall|j: int|
                    0 <= j < entries@.len() ==> slot_ok(r, #[trigger] entries@[j], res->0@)
                &&& forall|k: int|
                    0 <= k < entries@.len() && (#[trigger] res->0@[k]) is Some ==> has_number(
                        entries@,
                        entries@.len() as int,
                        k,
                    )
            },
    {
        let ghost depth = r.g.dom().len();
        let n = entries.len();
        let mut slots: Vec<Option<Tensor<Element>>> = Vec::new();
        let mut i: usize = 0;
        while i < n
            invariant
                i <= n,
                slots.len() == i,
                forall|j: int| 0 <= j < i ==> #[trigger] slots@[j] is None,
            decreases n - i,
        {
            slots.push(None);
            i = i + 1;
        }
        i = 0;
        while i < n
            invariant
                depth == r.g.dom().len(),
                n == entries@.len(),
                entries_are(r.g, entries@),
                steps@.dom() == r.g.dom(),
                steps_ok(r, steps@, depth),
                counts_ok(r),
                i <= n,
                slots.len() == n,
                numbers_distinct(entries@, n as int),
                forall|j: int| 0 <= j < i ==> slot_ok(r, #[trigger] entries@[j], slots@),
                forall|k: int|
                    0 <= k < n && (#[trigger] slots@[k]) is Some ==> has_number(
                        entries@,
                        i as int,
                        k,
                    ),
            decreases n - i,
        {
            let (k, id, w) = entries[i];
            assert(entry_ok(r.g, entries@[i as int]));
            if k >= n {
                proof {
                    if exists|m: nat| outputs_numbered(r.g, m) {
                        let m = choose|m: nat| outputs_numbered(r.g, m);
                        lemma_entry_count(r.g, entries@, m);
                    }
                }
                return None;
            }
            let ghost before = slots@;
            if let Some(step) = steps.get(&id) {
                let outs = step.outputs();
                proof {
                    assert(steps@.contains_key(id));
                    assert(Some(step.v()) == node_out(r, id, depth));
                    assert(is_output_node(r.g[id])) by {
                        assert(output_index(r.g[id].outputs[w as int]) is Some);
                    }
                    assert(r.g.contains_key(id) && is_output_node(r.g[id]));
                    assert(step.v().outputs.len() == outs@.len());
                }
                let t = outs[w].copy();
                slots.set(k, Some(t));
            }
            proof {
                assert(steps@.contains_key(id));
                assert forall|j: int| 0 <= j < i + 1 implies slot_ok(
                    r,
                    #[trigger] entries@[j],
                    slots@,
                ) by {
                    if j < i {
                        assert(slot_ok(r, entries@[j], before));
                        assert(entries@[j].0 != entries@[i as int].0);
                    }
                }
                assert forall|q: int| 0 <= q < n && (#[trigger] slots@[q]) is Some implies has_number(
                    entries@,
                    i + 1,
                    q,
                ) by {
                    if q == k {
                        assert(entries@[i as int].0 == q);
                    } else {
                        assert(before[q] is Some);
                        assert(has_number(entries@, i as int, q));
                    }
                }
            }
            i = i + 1;
        }
        Some(slots)
    }

    /// A node that gives outputs of the model, but not as many as it has wires, if there is one.
    fn wrong_count(
        &self,
        steps: &HashMap<NodeId, StepData<Element>>,
        Ghost(r): Ghost<RunView>,
    ) -> (res: Option<NodeId>)
        requires
            r.g == self.g(),
            steps@.dom() == r.g.dom(),
            steps_ok(r, steps@, r.g.dom().len()),
        ensures
            match res {
                Some(id) => count_differs(r, id) && !counts_ok(r),
                None => counts_ok(r) && forall|id: NodeId| !#[trigger] count_differs(r, id),
            },
    {
        let nodes = self.output_nodes();
        let ghost depth = r.g.dom().len();
        let mut i: usize = 0;
        while i < nodes.len()
            invariant
                r.g == self.g(),
                depth == r.g.dom().len(),
                steps@.dom() == r.g.dom(),
                steps_ok(r, steps@, depth),
                forall|id: NodeId| #[trigger]
                    ids_of(nodes@).contains(id) <==> r.g.contains_key(id)
                        && is_output_node(r.g[id]),
                forall|j: int|
                    0 <= j < nodes@.len() ==> *(#[trigger] nodes@[j]).1 == self.nodes@[nodes@[j].0],
                i <= nodes@.len(),
                forall|j: int|
                    0 <= j < i ==> (node_out(r, (#[trigger] nodes@[j]).0, depth)->0).outputs.len()
                        == r.g[nodes@[j].0].outputs.len(),
            decreases nodes@.len() - i,
        {
            let (id, node) = nodes[i];
            proof {
                assert(ids_of(nodes@)[i as int] == id);
                assert(ids_of(nodes@).contains(id));
                assert(r.g[id] == node@);
            }
            if let Some(step) = steps.get(&id) {
                assert(steps@.contains_key(id));
                assert(step.v().outputs.len() == step.outputs.outputs@.len());
                if step.outputs().len() != node.outputs.len() {
                    assert(r.g.contains_key(id) && is_output_node(r.g[id]));
                    return Some(id);
                }
            }
            assert(steps@.contains_key(id));
            i = i + 1;
        }
        proof {
            assert forall|id: NodeId| #[trigger]
                r.g.contains_key(id) && is_output_node(r.g[id]) implies (node_out(
                r,
                id,
                depth,
            )->0).outputs.len() == r.g[id].outputs.len() by {
                assert(ids_of(nodes@).contains(id));
                let j = choose|j: int|
                    0 <= j < ids_of(nodes@).len() && ids_of(nodes@)[j] == id;
                assert(nodes@[j].0 == id);
            }
            assert forall|id: NodeId| !#[trigger] count_differs(r, id) by {
                assert(counts_ok(r));
                if r.g.contains_key(id) && is_output_node(r.g[id]) {
                }
            }
        }
        None
    }
}

/// The nodes that give outputs of the model give as many as they have wires.
pub open spec fn counts_ok(r: RunView) -> bool {
    forall|id: NodeId| #[trigger]
        r.g.contains_key(id) && is_output_node(r.g[id]) ==> (node_out(
            r,
            id,
            r.g.dom().len(),
        )->0).outputs.len() == r.g[id].outputs.len()
}

/// A number that two entries have, if there is one.
fn find_twice(entries: &Vec<OutputEntry>) -> (r: Option<usize>)
    ensures
        match r {
            Some(k) => same_number(entries@, k),
            None => numbers_distinct(entries@, entries@.len() as int),
        },
{
    let n = entries.len();
    let mut b: usize = 0;
    while b < n
        invariant
            n == entries@.len(),
            b <= n,
            numbers_distinct(entries@, b as int),
        decreases n - b,
    {
        let k = entries[b].0;
        let mut a: usize = 0;
        while a < b
            invariant
                n == entries@.len(),
                a <= b < n,
                k == entries@[b as int].0,
                numbers_distinct(entries@, b as int),
                forall|j: int| 0 <= j < a ==> (#[trigger] entries@[j]).0 != k,
            decreases b - a,
        {
            if entries[a].0 == k {
                assert(entries@[a as int].0 == entries@[b as int].0);
                return Some(k);
            }
            a = a + 1;
        }
        b = b + 1;
    }
    None
}

/// Two entries have the number.
pub open spec fn same_number(s: Seq<OutputEntry>, k: usize) -> bool {
    exists|a: int, b: int|
        0 <= a < b < s.len() && (#[trigger] s[a]).0 == k && (#[trigger] s[b]).0 == k
}

proof fn lemma_twice<N>(g: Map<NodeId, NodeView<N>>, s: Seq<OutputEntry>, k: usize)
    requires
        entries_are(g, s),
        same_number(s, k),
    ensures
        twice(g, k),
        !exists|m: nat| outputs_numbered(g, m),
{
    let (a, b) = choose|a: int, b: int|
        0 <= a < b < s.len() && (#[trigger] s[a]).0 == k && (#[trigger] s[b]).0 == k;
    assert(entry_ok(g, s[a]));
    assert(entry_ok(g, s[b]));
    assert(is_model_output(g, s[a].1, s[a].2 as int, k));
    assert(is_model_output(g, s[b].1, s[b].2 as int, k));
}

proof fn lemma_not_twice<N>(g: Map<NodeId, NodeView<N>>, s: Seq<OutputEntry>)
    requires
        entries_are(g, s),
        numbers_distinct(s, s.len() as int),
    ensures
        forall|k: usize| !#[trigger] twice(g, k),
{
    assert forall|k: usize| !#[trigger] twice(g, k) by {
        if twice(g, k) {
            let (id, w, id2, w2) = choose|id: NodeId, w: int, id2: NodeId, w2: int|
                #![trigger is_model_output(g, id, w, k), is_model_output(g, id2, w2, k)]
                is_model_output(g, id, w, k) && is_model_output(g, id2, w2, k) && (id != id2 || w
                    != w2);
            assert(has_entry(s, id, w));
            assert(has_entry(s, id2, w2));
            let a = choose|j: int| 0 <= j < s.len() && (#[trigger] s[j]).1 == id && s[j].2 == w;
            let b = choose|j: int| 0 <= j < s.len() && (#[trigger] s[j]).1 == id2 && s[j].2 == w2;
            assert(entry_ok(g, s[a]));
            assert(entry_ok(g, s[b]));
            if a < b {
                assert(s[a].0 != s[b].0);
            } else if b < a {
                assert(s[b].0 != s[a].0);
            }
        }
    }
}

/// The first entries have different numbers.
pub open spec fn numbers_distinct(s: Seq<OutputEntry>, n: int) -> bool {
    forall|a: int, b: int| 0 <= a < b < n ==> (#[trigger] s[a]).0 != (#[trigger] s[b]).0
}

/// One of the first entries has the number.
pub open spec fn has_number(s: Seq<OutputEntry>, n: int, k: int) -> bool {
    exists|j: int| 0 <= j < n && (#[trigger] s[j]).0 == k
}

/// The place of the entry holds the output it stands for.
pub open spec fn slot_ok(
    r: RunView,
    e: OutputEntry,
    slots: Seq<Option<Tensor<Element>>>,
) -> bool {
    &&& e.0 < slots.len()
    &&& slots[e.0 as int] is Some
    &&& slots[e.0 as int]->0@ == (node_out(r, e.1, r.g.dom().len())->0).outputs[e.2 as int]
}

/// Every number of a well numbered output has an entry.
proof fn lemma_entry_for<N>(
    g: Map<NodeId, NodeView<N>>,
    s: Seq<OutputEntry>,
    m: nat,
    k: usize,
)
    requires
        entries_are(g, s),
        outputs_numbered(g, m),
        k < m,
    ensures
        exists|j: int| 0 <= j < s.len() && (#[trigger] s[j]).0 == k,
{
    assert(has_output(g, k));
    let (id, w) = choose|id: NodeId, w: int| #[trigger] is_model_output(g, id, w, k);
    assert(has_entry(s, id, w));
    let j = choose|j: int| 0 <= j < s.len() && (#[trigger] s[j]).1 == id && s[j].2 == w;
    assert(entry_ok(g, s[j]));
    assert(s[j].0 == k);
}

/// Entries that fill as many slots as there are entries are well numbered.
proof fn lemma_numbered(
    g: Map<NodeId, NodeView<Element>>,
    s: Seq<OutputEntry>,
    slots: Seq<Option<Tensor<Element>>>,
)
    requires
        entries_are(g, s),
        s.len() > 0,
        slots.len() == s.len(),
        s.len() <= usize::MAX,
        forall|j: int| 0 <= j < s.len() ==> (#[trigger] s[j]).0 < s.len(),
        numbers_distinct(s, s.len() as int),
        forall|k: int|
            0 <= k < s.len() ==> (#[trigger] slots[k]) is Some && has_number(
                s,
                s.len() as int,
                k,
            ),
    ensures
        outputs_numbered(g, s.len()),
{
    let n = s.len();
    assert forall|k: usize| k < n implies #[trigger] has_output(g, k) by {
        assert(slots[k as int] is Some);
        let j = choose|j: int| 0 <= j < n && (#[trigger] s[j]).0 == k;
        assert(entry_ok(g, s[j]));
    }
    assert forall|id: NodeId, w: int, k: usize| #[trigger] is_model_output(g, id, w, k) implies k
        < n by {
        assert(has_entry(s, id, w));
        let j = choose|j: int| 0 <= j < n && (#[trigger] s[j]).1 == id && s[j].2 == w;
        assert(entry_ok(g, s[j]));
    }
    assert forall|id: NodeId, w: int, id2: NodeId, w2: int, k: usize|
        #![trigger is_model_output(g, id, w, k), is_model_output(g, id2, w2, k)]
        is_model_output(g, id, w, k) && is_model_output(g, id2, w2, k) implies id == id2 && w
        == w2 by {
        assert(has_entry(s, id, w));
        assert(has_entry(s, id2, w2));
        let a = choose|j: int| 0 <= j < n && (#[trigger] s[j]).1 == id && s[j].2 == w;
        let b = choose|j: int| 0 <= j < n && (#[trigger] s[j]).1 == id2 && s[j].2 == w2;
        assert(entry_ok(g, s[a]));
        assert(entry_ok(g, s[b]));
        if a < b {
            assert(s[a].0 != s[b].0);
        } else if b < a {
            assert(s[b].0 != s[a].0);
        }
    }
}

} // verus!
