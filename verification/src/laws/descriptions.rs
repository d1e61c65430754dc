//! What the descriptions and messages say.
use crate::bench::{digits_of, number, number_fault};
use crate::commit::error::PCSError;
use crate::field::Fe;
use crate::iop::claims::unclaimed_message;
use crate::iop::verify::{input_message, missing_message};
use crate::laws::texts::law_decimal;
use crate::layers::{Layer, LayerCtx, LayerProof, failed};
use crate::layers::activation::{Activation, Relu};
use crate::layers::convolution::Convolution;
use crate::layers::dense::Dense;
use crate::layers::flatten::Flatten;
use crate::layers::pooling::Pooling;
use crate::layers::provable::{Edge, NodeId};
use crate::layers::provable::error::ProvableOpError;
use crate::layers::requant::Requant;
use crate::layers::requant_steps::claim_message;
use crate::lookup::context::TableType;
use crate::lookup::logup_gkr::error::LogUpError;
use crate::model::{NodeView, connect_message};
use crate::model::description::{
    edge_text, edges_text, list_text, model_lines, node_lines, numbers_text, separated,
    shapes_text, wires_text,
};
use crate::model::faults::{
    all_made, count_differs, count_message, fault_text, gap_message, model_input_message,
    node_fails, request_message, run_fault, twice, twice_message,
};
use crate::model::inputs::input_count_message;
use crate::model::trace::{RunView, has_output};
use crate::model::wiring::route_message;
use crate::quantization::Element;
use crate::shape::pow2_shape;
use crate::text::{decimal, fe_text, quoted};
use vstd::prelude::*;
use vstd::string::*;

verus! {

/// The description of a layer gives its kind and its sizes.
pub proof fn law_layer_text(op: Layer<Element>, scale: Seq<char>)
    ensures
        match op {
            Layer::Dense(d) => {
                let s = d.matrix@.shape;
                let biased = exists|i: int|
                    0 <= i < d.bias@.data.len() && #[trigger] d.bias@.data[i] != 0;
                s.len() == 2 ==> op.text(scale) == "Dense: ("@ + decimal(s[0] as nat) + "x"@
                    + decimal(s[1] as nat) + ") + bias ("@ + (if biased {
                    "true"@
                } else {
                    "false"@
                }) + ")"@
            },
            Layer::Convolution(c) => {
                let s = c.filter@.shape;
                op.text(scale) == "Conv: ("@ + decimal(s[0] as nat) + ","@ + decimal(s[1] as nat)
                    + ","@ + decimal(s[2] as nat) + ","@ + decimal(s[2] as nat) + ")"@
            },
            Layer::SchoolBookConvolution(c) => {
                let s = c.0.filter@.shape;
                op.text(scale) == "Conv: ("@ + decimal(s[0] as nat) + ","@ + decimal(s[1] as nat)
                    + ","@ + decimal(s[2] as nat) + ","@ + decimal(s[2] as nat) + ")"@
            },
            Layer::Activation(_) => op.text(scale) == "RELU: 256"@,
            Layer::Requant(q) => op.text(scale) == "Requant: right shift: "@ + decimal(
                (q.fp_scale + q.right_shift) as nat,
            ) + ", scale: "@ + scale,
            Layer::Pooling(Pooling::Maxpool2D(p)) => op.text(scale) == "MaxPool2D{ kernel size: "@
                + decimal(p.kernel_size as nat) + ", stride: "@ + decimal(p.stride as nat) + " }"@,
            Layer::Flatten(_) => op.text(scale) == "Flatten"@,
        },
{
    if op is Activation {
        reveal_strlit("RELU: 256");
        reveal_strlit("RELU: ");
        reveal_with_fuel(decimal, 4);
        assert(op.text(scale) =~= "RELU: 256"@);
    }
}

/// The kinds of layers by their names.
pub proof fn law_kind_name(ctx: LayerCtx)
    ensures
        ctx is Dense ==> ctx.name() == "Dense"@,
        ctx is SchoolBookConvolution ==> ctx.name() == "Traditional Convolution"@,
        ctx is Convolution ==> ctx.name() == "Convolution"@,
        ctx is Activation ==> ctx.name() == "Activation"@,
        ctx is Requant ==> ctx.name() == "Requant"@,
        ctx is Pooling ==> ctx.name() == "Pooling"@,
        ctx is Table ==> ctx.name() == "Table"@,
        ctx is Flatten ==> ctx.name() == "Reshape"@,
{
}

/// The tables by their names. Tables with different names are different.
pub proof fn law_table_name(t: TableType, u: TableType)
    ensures
        t is Relu ==> t.label() == "Relu"@,
        t is Range ==> t.label() == "Range"@,
        t matches TableType::Clamping(n) ==> t.label() == "Clamping: "@ + decimal(n as nat),
        t.label() == u.label() ==> t == u,
{
    reveal_strlit("Relu");
    reveal_strlit("Range");
    reveal_strlit("Clamping: ");
    let head = "Clamping: "@;
    if t is Relu {
        assert(t.label()[0] == 'R' && t.label().len() == 4);
    }
    if t is Range {
        assert(t.label()[0] == 'R' && t.label().len() == 5);
    }
    if u is Relu {
        assert(u.label()[0] == 'R' && u.label().len() == 4);
    }
    if u is Range {
        assert(u.label()[0] == 'R' && u.label().len() == 5);
    }
    if let TableType::Clamping(a) = t {
        assert(t.label()[0] == 'C');
        if let TableType::Clamping(b) = u {
            if t.label() == u.label() {
                assert(t.label().skip(head.len() as int) =~= decimal(a as nat));
                assert(u.label().skip(head.len() as int) =~= decimal(b as nat));
                law_decimal(a as nat);
                law_decimal(b as nat);
            }
        }
    }
    if u is Clamping {
        assert(u.label()[0] == 'C');
    }
}

/// A list stands between brackets, with a comma and a space before every item but the first.
pub proof fn law_list_text(items: Seq<Seq<char>>, item: Seq<char>)
    ensures
        list_text(Seq::<Seq<char>>::empty()) == "[]"@,
        list_text(seq![item]) == "["@ + item + "]"@,
        items.len() > 0 ==> list_text(items.push(item)) == list_text(items).drop_last() + ", "@
            + item + "]"@,
{
    reveal_strlit("[]");
    reveal_strlit("[");
    reveal_strlit("]");
    reveal_with_fuel(separated, 2);
    assert(list_text(Seq::<Seq<char>>::empty()) =~= "[]"@);
    if items.len() > 0 {
        let all = items.push(item);
        assert(all.drop_last() =~= items);
        assert(list_text(items).drop_last() =~= "["@ + separated(items));
        assert(list_text(all) =~= list_text(items).drop_last() + ", "@ + item + "]"@);
    }
}

/// The parts of descriptions: numbers, shapes, edges and wires are written item by item.
pub proof fn law_part_texts(s: Seq<usize>, t: Seq<Seq<usize>>, e: Edge, w: Seq<Seq<Edge>>)
    ensures
        numbers_text(s) == list_text(s.map_values(|n: usize| decimal(n as nat))),
        shapes_text(t) == list_text(t.map_values(|n: Seq<usize>| numbers_text(n))),
        e.node matches Some(n) ==> edge_text(e) == "Edge { node: Some("@ + decimal(n as nat)
            + "), index: "@ + decimal(e.index as nat) + " }"@,
        e.node is None ==> edge_text(e) == "Edge { node: None, index: "@ + decimal(e.index as nat)
            + " }"@,
        wires_text(w) == list_text(
            w.map_values(
                |v: Seq<Edge>|
                    "OutputWire { edges: "@ + list_text(v.map_values(|x: Edge| edge_text(x)))
                        + " }"@,
            ),
        ),
{
    assert(s.map_values(|n: usize| decimal(n as nat)) =~= Seq::new(
        s.len(),
        |i: int| decimal(s[i] as nat),
    ));
    assert(t.map_values(|n: Seq<usize>| numbers_text(n)) =~= Seq::new(
        t.len(),
        |i: int| numbers_text(t[i]),
    ));
    let f = |v: Seq<Edge>|
        "OutputWire { edges: "@ + list_text(v.map_values(|x: Edge| edge_text(x))) + " }"@;
    let a = w.map_values(f);
    let b = Seq::new(w.len(), |i: int| "OutputWire { edges: "@ + edges_text(w[i]) + " }"@);
    assert forall|i: int| 0 <= i < w.len() implies a[i] == b[i] by {
        let v = w[i];
        assert(v.map_values(|x: Edge| edge_text(x)) =~= Seq::new(
            v.len(),
            |j: int| edge_text(v[j]),
        ));
    }
    assert(a =~= b);
}

proof fn lemma_node_lines(
    g: Map<NodeId, NodeView<Element>>,
    order: Seq<NodeId>,
    scales: Map<NodeId, String>,
    k: nat,
    j: int,
)
    requires
        0 <= j < k <= order.len(),
    ensures
        ({
            let lines = node_lines(g, order, scales, k);
            let id = order[j];
            let scale = if scales.contains_key(id) {
                scales[id]@
            } else {
                ""@
            };
            &&& lines.len() == 2 * k
            &&& lines[2 * j] == "\t- "@ + decimal(id as nat) + ": "@ + edges_text(g[id].inputs)
            &&& lines[2 * j + 1] == "\t- "@ + decimal(id as nat) + ": "@ + g[id].operation.text(
                scale,
            )
        }),
    decreases k,
{
    let p = (k - 1) as nat;
    reveal_with_fuel(node_lines, 2);
    if p > 0 {
        lemma_node_lines(g, order, scales, p, if j < p { j } else { 0 });
    }
}

/// The description of a model has two lines for each node, in the order of the nodes, behind the
/// lines on the shapes of the inputs, and a line for each output node at the end.
pub proof fn law_model_lines(
    g: Map<NodeId, NodeView<Element>>,
    unpadded: Seq<Seq<usize>>,
    scales: Map<NodeId, String>,
    order: Seq<NodeId>,
    outputs: Seq<NodeId>,
    j: int,
    i: int,
)
    requires
        0 <= j < order.len(),
        0 <= i < outputs.len(),
    ensures
        ({
            let lines = model_lines(g, unpadded, scales, order, outputs);
            let n = order.len() as int;
            let id = order[j];
            let out = outputs[i];
            let scale = if scales.contains_key(id) {
                scales[id]@
            } else {
                ""@
            };
            &&& lines.len() == 4 + 2 * n + outputs.len()
            &&& lines[0] == "Model description:"@
            &&& lines[1] == "Unpadded input shapes: "@ + shapes_text(unpadded)
            &&& lines[2] == "Padded input shapes: "@ + shapes_text(
                unpadded.map_values(|s: Seq<usize>| pow2_shape(s)),
            )
            &&& lines[3 + 2 * j] == "\t- "@ + decimal(id as nat) + ": "@ + edges_text(g[id].inputs)
            &&& lines[4 + 2 * j] == "\t- "@ + decimal(id as nat) + ": "@ + g[id].operation.text(
                scale,
            )
            &&& lines[3 + 2 * n] == "Output nodes:"@
            &&& lines[4 + 2 * n + i] == "\t- "@ + decimal(out as nat) + ":"@ + wires_text(
                g[out].outputs,
            )
        }),
{
    lemma_node_lines(g, order, scales, order.len(), j);
    assert(unpadded.map_values(|s: Seq<usize>| pow2_shape(s)) =~= Seq::new(
        unpadded.len(),
        |k: int| pow2_shape(unpadded[k]),
    ));
}

/// What a fault of a layer is called: parameters are to blame, or something else.
pub proof fn law_fault_text(m: Seq<char>, r: Result<(), ProvableOpError>)
    ensures
        fault_text((true, m)) == "Incorrect parameters passed to ProvableOp: "@ + m,
        fault_text((false, m)) == "ProvableOp generic error: "@ + m,
        failed(r, (true, m)) <==> (r matches Err(ProvableOpError::ParameterError(s)) && s@ == m),
        failed(r, (false, m)) <==> (r matches Err(ProvableOpError::GenericError(s)) && s@ == m),
{
}

/// What is wrong with a text that is no number: nothing is there, a character is no digit, or the
/// number is too large.
pub proof fn law_number_fault(s: Seq<char>)
    requires
        s.len() == 0 || !(number(digits_of(s)) is Value),
    ensures
        s.len() == 0 ==> number_fault(s) == "cannot parse integer from empty string"@,
        s.len() > 0 && number(digits_of(s)) is Invalid ==> number_fault(s)
            == "invalid digit found in string"@,
        s.len() > 0 && number(digits_of(s)) is TooLarge ==> number_fault(s)
            == "number too large to fit in target type"@,
        s.len() > 1 && s[0] == '+' ==> digits_of(s) == s.skip(1),
        s.len() <= 1 || s[0] != '+' ==> digits_of(s) == s,
{
}

/// A run fails for one reason: a node cannot make its step, a node gives too many or too few
/// outputs of the model, or the outputs of the model are not numbered from zero on, each once.
pub proof fn law_run_fault(r: RunView, m: Seq<char>)
    requires
        run_fault(r, m),
    ensures
        ({
            ||| exists|id: NodeId| #[trigger] node_fails(r, id, m)
            ||| m == "The nodes of the model cannot be put in order"@
            ||| exists|id: NodeId| #[trigger]
                r.g.contains_key(id) && m == "Number of outputs found in trace for node "@
                    + decimal(id as nat)
                    + " is different from the number of expected outputs\n                for the node"@
            ||| exists|k: usize| #[trigger]
                has_output(r.g, k) && m
                    == "Trying to insert twice an output value for the same index "@ + decimal(
                    k as nat,
                )
            ||| m == "No outputs found for the model"@ && !exists|k: usize| #[trigger] has_output(
                r.g,
                k,
            )
            ||| m == gap_message()
        }),
{
    if !all_made(r) {
    } else if exists|id: NodeId| #[trigger] count_differs(r, id) {
        let id = choose|id: NodeId| #[trigger] count_differs(r, id) && m == count_message(id);
        assert(r.g.contains_key(id));
    } else if exists|k: usize| #[trigger] twice(r.g, k) {
        let k = choose|k: usize| #[trigger] twice(r.g, k) && m == twice_message(k);
        assert(has_output(r.g, k));
    }
}

/// The messages on nodes and edges that are not there name them.
pub proof fn law_graph_messages(g: Map<NodeId, NodeView<Element>>, e: Edge, i: nat)
    ensures
        e.node matches Some(n) ==> {
            let node = decimal(n as nat);
            let index = decimal(e.index as nat);
            &&& !g.contains_key(n) ==> {
                &&& connect_message(g, e, i) == "Node "@ + node + " for input "@ + decimal(i)
                    + " of new node not found in model"@
                &&& route_message(g, e) == "Node "@ + node + " not found"@
            }
            &&& g.contains_key(n) ==> {
                let count = decimal(g[n].outputs.len());
                &&& connect_message(g, e, i) == "Specified output number "@ + index + " for node "@
                    + node + ", which has only "@ + count + " outputs"@
                &&& route_message(g, e) == "Specified output "@ + index + " for node "@ + node
                    + ", but only "@ + count + " outputs found"@
            }
        },
        e.node is None ==> route_message(g, e) == "Provided output edge with no input node"@,
{
}

/// The messages on inputs, claims and proofs that are not there, or wrong, name them.
pub proof fn law_messages(index: usize, id: NodeId, count: nat, found: nat, a: Fe, b: Fe)
    ensures
        request_message(index, id, count) == "Requested output "@ + decimal(index as nat)
            + " for node "@ + decimal(id as nat) + ", which has only "@ + decimal(count)
            + " outputs"@,
        model_input_message(index, count) == "Required input "@ + decimal(index as nat)
            + " of model, but there are only "@ + decimal(count) + " inputs"@,
        input_count_message(count, found) == "Unexpected number of inputs tensors: expected "@
            + decimal(count) + ", found "@ + decimal(found),
        unclaimed_message(index as int) == "No claim found for output "@ + decimal(index as nat)
            + " of the node"@,
        missing_message(id) == "Proof for node "@ + decimal(id as nat) + " not found"@,
        input_message(count) == "input "@ + decimal(count) + " not valid from proof"@,
        claim_message(a, b)
            == "The calculated claim did not line up with the expected claim, calculated: "@
            + fe_text(a) + ", expected: "@ + fe_text(b),
{
}

/// The kinds of proofs by their names.
pub proof fn law_proof_name<S, C>(p: LayerProof<S, C>)
    ensures
        p is Dense ==> p.name() == "Dense"@,
        p is Convolution ==> p.name() == "Convolution"@,
        p is Activation ==> p.name() == "Activation"@,
        p is Requant ==> p.name() == "Requant"@,
        p is Pooling ==> p.name() == "Pooling"@,
        p is Dummy ==> p.name() == "Dummy"@,
{
}

/// The texts of errors: what went wrong, and the message.
pub proof fn law_error_texts(p: ProvableOpError, l: LogUpError, c: PCSError)
    ensures
        p matches ProvableOpError::ParameterError(s) ==> p.text()
            == "Incorrect parameters passed to ProvableOp: "@ + s@,
        p matches ProvableOpError::TypeError(s) ==> p.text()
            == "Incompatible type used in ProvableOp: "@ + s@,
        p matches ProvableOpError::ConversionError(s) ==> p.text()
            == "Provable Op conversion error: "@ + s@,
        p matches ProvableOpError::GenericError(s) ==> p.text() == "ProvableOp generic error: "@
            + s@,
        p matches ProvableOpError::NotProvableLayer(s) ==> p.text()
            == "Trying to prove or verify a non provable layer: "@ + s@,
        p matches ProvableOpError::OnnxParsingError(s) ==> p.text() == "Error parsing ONNX model: "@
            + s@,
        p matches ProvableOpError::PCSError(e) ==> p.text() == "Commitment Error: "@ + e.text(),
        l matches LogUpError::PolynomialError(s) ==> l.text() == "Polynomial related error: "@ + s@,
        l matches LogUpError::ProvingError(s) ==> l.text() == "Error during LogUp proving: "@ + s@,
        l matches LogUpError::VerifierError(s) ==> l.text() == "Error while verifying LogUp proof: "@
            + s@,
        l matches LogUpError::ParamterError(s) ==> l.text() == "Parameters were incorrect: "@ + s@,
        l matches LogUpError::PCSError(e) ==> l.text() == "Error occurred with commitments: "@
            + e.debug_text(),
        c matches PCSError::ParameterError(s) ==> c.text()
            == "Commitment Error: Incorrect Parameters: "@ + s@ && c.debug_text()
            == "ParameterError("@ + quoted(s@) + ")"@,
        c matches PCSError::MPCSError(s) ==> c.text()
            == "Error in mpcs crate method, internal error: "@ + s@ && c.debug_text()
            == "MPCSError("@ + s@ + ")"@,
{
}

/// A field element is written by its two coefficients.
pub proof fn law_field_text(a: nat, b: nat)
    ensures
        fe_text((a as int, b as int)) == "GoldilocksExt2 { c0: "@ + decimal(a) + ", c1: "@
            + decimal(b) + " }"@,
{
}

} // verus!
