//! What goes wrong when a model is run.
use crate::layers::layer_fault;
use crate::layers::provable::{Edge, NodeId, PaddingMode};
use crate::model::{ModelError, NodeView, model_err, model_error};
use crate::model::inputs::shorter;
use crate::model::trace::{
    RunView, all_known, has_output, input_values, is_model_output, is_output_node, node_out,
};
use crate::quantization::Element;
use crate::tensor::TensorView;
use crate::text::{append_decimal, decimal};
use vstd::prelude::*;
use vstd::string::*;

verus! {

/// The nodes that the inputs of node `id` come from all give something.
pub open spec fn sources_known(r: RunView, id: NodeId) -> bool {
    let inputs = r.g[id].inputs;
    forall|i: int|
        0 <= i < inputs.len() && inputs[i].node is Some ==> node_out(
            r,
            (#[trigger] inputs[i]).node->0,
            r.g.dom().len(),
        ) is Some
}

/// The message on an input that a node asks for and that is not there.
pub open spec fn edge_message(r: RunView, e: Edge) -> Seq<char> {
    match e.node {
        Some(n) => {
            let s = node_out(r, n, r.g.dom().len())->0;
            if e.index >= s.outputs.len() {
                request_message(e.index, n, s.outputs.len())
            } else {
                "The shape of output "@ + decimal(e.index as nat) + " of node "@ + decimal(
                    n as nat,
                ) + " is not known"@
            }
        },
        None => model_input_message(e.index, shorter(r.xs.len(), r.us.len())),
    }
}

pub open spec fn request_message(index: usize, n: NodeId, count: nat) -> Seq<char> {
    "Requested output "@ + decimal(index as nat) + " for node "@ + decimal(n as nat)
        + ", which has only "@ + decimal(count) + " outputs"@
}

pub open spec fn model_input_message(index: usize, count: nat) -> Seq<char> {
    "Required input "@ + decimal(index as nat) + " of model, but there are only "@ + decimal(count)
        + " inputs"@
}

/// The text of the error that a layer fails with.
pub open spec fn fault_text(fault: (bool, Seq<char>)) -> Seq<char> {
    if fault.0 {
        "Incorrect parameters passed to ProvableOp: "@ + fault.1
    } else {
        "ProvableOp generic error: "@ + fault.1
    }
}

/// Edge `i` is the first over which nothing comes in.
pub open spec fn first_unknown(
    vals: Seq<Option<(TensorView<Element>, Seq<usize>)>>,
    i: int,
) -> bool {
    &&& 0 <= i < vals.len()
    &&& vals[i] is None
    &&& forall|j: int| 0 <= j < i ==> #[trigger] vals[j] is Some
}

/// Node `id` cannot make its step, although the nodes that its inputs come from can: an output
/// that it asks for does not exist, or the layer fails. The message says which.
pub open spec fn node_fails(r: RunView, id: NodeId, m: Seq<char>) -> bool {
    let vals = input_values(r, id, r.g.dom().len());
    let ins = Seq::new(vals.len(), |i: int| (vals[i]->0).0);
    let shs = Seq::new(vals.len(), |i: int| (vals[i]->0).1);
    let op = r.g[id].operation;
    &&& r.g.contains_key(id)
    &&& sources_known(r, id)
    &&& if !all_known(vals) {
        exists|i: int| #[trigger]
            first_unknown(vals, i) && m == edge_message(r, r.g[id].inputs[i])
    } else if !op.shapes_ok(shs, PaddingMode::NoPadding) {
        m == "The shapes of the inputs do not go with the layer"@
    } else {
        layer_fault(op, ins, shs) is Some && m == fault_text(layer_fault(op, ins, shs)->0)
    }
}

/// Two outputs of nodes are output `k` of the model.
pub open spec fn twice<N>(g: Map<NodeId, NodeView<N>>, k: usize) -> bool {
    exists|id: NodeId, w: int, id2: NodeId, w2: int|
        #![trigger is_model_output(g, id, w, k), is_model_output(g, id2, w2, k)]
        is_model_output(g, id, w, k) && is_model_output(g, id2, w2, k) && (id != id2 || w != w2)
}

/// The node gives outputs of the model, but not as many as it has wires.
pub open spec fn count_differs(r: RunView, id: NodeId) -> bool {
    &&& r.g.contains_key(id)
    &&& is_output_node(r.g[id])
    &&& (node_out(r, id, r.g.dom().len())->0).outputs.len() != r.g[id].outputs.len()
}

pub open spec fn count_message(id: NodeId) -> Seq<char> {
    "Number of outputs found in trace for node "@ + decimal(id as nat)
        + " is different from the number of expected outputs\n                for the node"@
}

pub open spec fn twice_message(k: usize) -> Seq<char> {
    "Trying to insert twice an output value for the same index "@ + decimal(k as nat)
}

/// The message on outputs that are not numbered from zero on without gaps: the condition on the
/// least and on the greatest number.
pub open spec fn gap_message() -> Seq<char> {
    "Condition failed: `*outputs.first_key_value().unwrap().0 == 0 && *outputs.last_key_value().unwrap().0 == outputs.len() - 1`"@
}

/// Every node can make its step.
pub open spec fn all_made(r: RunView) -> bool {
    forall|id: NodeId| #[trigger]
        r.g.contains_key(id) ==> node_out(r, id, r.g.dom().len()) is Some
}

/// The message on a run in which not all nodes can make their steps: that of a node that fails, or,
/// where each waits for another, that there is no order.
pub open spec fn step_fault(r: RunView, m: Seq<char>) -> bool {
    if exists|id: NodeId, t: Seq<char>| #[trigger] node_fails(r, id, t) {
        exists|id: NodeId| #[trigger] node_fails(r, id, m)
    } else {
        m == "The nodes of the model cannot be put in order"@
    }
}

/// The message on a run that fails. The nodes are gone through in no particular order: where
/// several fail, the message is that of one of them.
pub open spec fn run_fault(r: RunView, m: Seq<char>) -> bool {
    if !all_made(r) {
        step_fault(r, m)
    } else if exists|id: NodeId| #[trigger] count_differs(r, id) {
        exists|id: NodeId| #[trigger] count_differs(r, id) && m == count_message(id)
    } else if exists|k: usize| #[trigger] twice(r.g, k) {
        exists|k: usize| #[trigger] twice(r.g, k) && m == twice_message(k)
    } else if !exists|k: usize| #[trigger] has_output(r.g, k) {
        m == "No outputs found for the model"@
    } else {
        m == gap_message()
    }
}

/// The message on an output that a node asks for and that is not there.
pub fn request_text(index: usize, n: NodeId, count: usize) -> (s: String)
    ensures
        s@ == request_message(index, n, count as nat),
{
    let mut s = String::from_str("Requested output ");
    append_decimal(&mut s, index);
    s.append(" for node ");
    append_decimal(&mut s, n);
    s.append(", which has only ");
    append_decimal(&mut s, count);
    s.append(" outputs");
    s
}

/// The message on an output whose shape is not known.
pub fn shape_text(index: usize, n: NodeId) -> (s: String)
    ensures
        s@ == "The shape of output "@ + decimal(index as nat) + " of node "@ + decimal(n as nat)
            + " is not known"@,
{
    let mut s = String::from_str("The shape of output ");
    append_decimal(&mut s, index);
    s.append(" of node ");
    append_decimal(&mut s, n);
    s.append(" is not known");
    s
}

/// The message on an input of the model that a node asks for and that is not there.
pub fn model_input_text(index: usize, count: usize) -> (s: String)
    ensures
        s@ == model_input_message(index, count as nat),
{
    let mut s = String::from_str("Required input ");
    append_decimal(&mut s, index);
    s.append(" of model, but there are only ");
    append_decimal(&mut s, count);
    s.append(" inputs");
    s
}

/// The message on a node that gives too few or too many outputs.
pub fn count_text(id: NodeId) -> (s: String)
    ensures
        s@ == count_message(id),
{
    let mut s = String::from_str("Number of outputs found in trace for node ");
    append_decimal(&mut s, id);
    s.append(
        " is different from the number of expected outputs\n                for the node",
    );
    s
}

/// The message on a number that two outputs of the model have.
pub fn twice_text(k: usize) -> (s: String)
    ensures
        s@ == twice_message(k),
{
    let mut s = String::from_str("Trying to insert twice an output value for the same index ");
    append_decimal(&mut s, k);
    s
}

/// The failure on outputs that are not numbered from zero on without gaps.
pub fn gap_err<T>() -> (r: Result<T, ModelError>)
    ensures
        model_error(r, gap_message()),
{
    model_err(
        "Condition failed: `*outputs.first_key_value().unwrap().0 == 0 && *outputs.last_key_value().unwrap().0 == outputs.len() - 1`",
    )
}

} // verus!
