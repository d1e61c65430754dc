//! Textual description of models.
use crate::bench::texts;
use crate::layers::provable::{Edge, NodeId, OutputWire, wires};
use crate::model::{Model, NodeView};
use crate::model::order::{forward_order, lemma_order_nodes, ordered, sources};
use crate::model::run::ids_of;
use crate::model::trace::is_output_node;
use crate::quantization::Element;
use crate::shape::{pow2_shape, pow2_shape_fits, shapes};
use crate::text::{append_decimal, decimal, decimal_text, joined};
use std::collections::HashMap;
use vstd::prelude::*;
use vstd::string::*;

verus! {

/// The items between brackets, with commas.
pub open spec fn list_text(items: Seq<Seq<char>>) -> Seq<char> {
    "["@ + separated(items) + "]"@
}

/// The items with commas between them.
pub open spec fn separated(items: Seq<Seq<char>>) -> Seq<char>
    decreases items.len(),
{
    if items.len() == 0 {
        Seq::empty()
    } else if items.len() == 1 {
        items[0]
    } else {
        separated(items.drop_last()) + ", "@ + items.last()
    }
}

fn write_list(items: &[String]) -> (r: String)
    ensures
        r@ == list_text(texts(items@)),
{
    let ghost all = texts(items@);
    let mut s = String::from_str("[");
    let mut i: usize = 0;
    proof {
        assert("["@ + Seq::<char>::empty() =~= "["@);
    }
    while i < items.len()
        invariant
            all == texts(items@),
            i <= items@.len(),
            s@ == "["@ + separated(all.take(i as int)),
        decreases items@.len() - i,
    {
        proof {
            assert(all.take(i + 1).drop_last() =~= all.take(i as int));
            assert(all.take(i + 1).last() == items@[i as int]@);
        }
        let ghost before = s@;
        if i > 0 {
            s.append(", ");
        }
        s.append(items[i].as_str());
        assert(s@ =~= "["@ + separated(all.take(i + 1)));
        i = i + 1;
    }
    s.append("]");
    assert(all.take(i as int) =~= all);
    assert(s@ =~= list_text(all));
    s
}

/// A list of numbers.
pub open spec fn numbers_text(s: Seq<usize>) -> Seq<char> {
    list_text(Seq::new(s.len(), |i: int| decimal(s[i] as nat)))
}

fn write_numbers(s: &[usize]) -> (r: String)
    ensures
        r@ == numbers_text(s@),
{
    let mut items: Vec<String> = Vec::new();
    let mut i: usize = 0;
    while i < s.len()
        invariant
            i <= s@.len(),
            items.len() == i,
            forall|j: int| 0 <= j < i ==> (#[trigger] items@[j])@ == decimal(s@[j] as nat),
        decreases s@.len() - i,
    {
        items.push(decimal_text(s[i]));
        i = i + 1;
    }
    assert(texts(items@) =~= Seq::new(s@.len(), |i: int| decimal(s@[i] as nat)));
    write_list(items.as_slice())
}

/// A list of shapes.
pub open spec fn shapes_text(s: Seq<Seq<usize>>) -> Seq<char> {
    list_text(Seq::new(s.len(), |i: int| numbers_text(s[i])))
}

fn write_shapes(s: &[Vec<usize>]) -> (r: String)
    ensures
        r@ == shapes_text(shapes(s@)),
{
    let mut items: Vec<String> = Vec::new();
    let mut i: usize = 0;
    while i < s.len()
        invariant
            i <= s@.len(),
            items.len() == i,
            forall|j: int| 0 <= j < i ==> (#[trigger] items@[j])@ == numbers_text(s@[j]@),
        decreases s@.len() - i,
    {
        items.push(write_numbers(s[i].as_slice()));
        i = i + 1;
    }
    assert(texts(items@) =~= Seq::new(s@.len(), |i: int| numbers_text(shapes(s@)[i])));
    write_list(items.as_slice())
}

/// An edge.
pub open spec fn edge_text(e: Edge) -> Seq<char> {
    match e.node {
        Some(n) => "Edge { node: Some("@ + decimal(n as nat) + "), index: "@ + decimal(
            e.index as nat,
        ) + " }"@,
        None => "Edge { node: None, index: "@ + decimal(e.index as nat) + " }"@,
    }
}

fn write_edge(e: Edge) -> (r: String)
    ensures
        r@ == edge_text(e),
{
    match e.node {
        Some(n) => {
            let mut s = String::from_str("Edge { node: Some(");
            append_decimal(&mut s, n);
            s.append("), index: ");
            append_decimal(&mut s, e.index);
            s.append(" }");
            s
        },
        None => {
            let mut s = String::from_str("Edge { node: None, index: ");
            append_decimal(&mut s, e.index);
            s.append(" }");
            s
        },
    }
}

/// A list of edges.
pub open spec fn edges_text(s: Seq<Edge>) -> Seq<char> {
    list_text(Seq::new(s.len(), |i: int| edge_text(s[i])))
}

fn write_edges(s: &[Edge]) -> (r: String)
    ensures
        r@ == edges_text(s@),
{
    let mut items: Vec<String> = Vec::new();
    let mut i: usize = 0;
    while i < s.len()
        invariant
            i <= s@.len(),
            items.len() == i,
            forall|j: int| 0 <= j < i ==> (#[trigger] items@[j])@ == edge_text(s@[j]),
        decreases s@.len() - i,
    {
        items.push(write_edge(s[i]));
        i = i + 1;
    }
    assert(texts(items@) =~= Seq::new(s@.len(), |i: int| edge_text(s@[i])));
    write_list(items.as_slice())
}

/// A list of outputs.
pub open spec fn wires_text(s: Seq<Seq<Edge>>) -> Seq<char> {
    list_text(
        Seq::new(s.len(), |i: int| "OutputWire { edges: "@ + edges_text(s[i]) + " }"@),
    )
}

fn write_wires(s: &[OutputWire]) -> (r: String)
    ensures
        r@ == wires_text(wires(s@)),
{
    let mut items: Vec<String> = Vec::new();
    let mut i: usize = 0;
    while i < s.len()
        invariant
            i <= s@.len(),
            items.len() == i,
            forall|j: int|
                0 <= j < i ==> (#[trigger] items@[j])@ == "OutputWire { edges: "@ + edges_text(
                    s@[j].edges@,
                ) + " }"@,
        decreases s@.len() - i,
    {
        let mut t = String::from_str("OutputWire { edges: ");
        t.append(write_edges(s[i].edges.as_slice()).as_str());
        t.append(" }");
        items.push(t);
        i = i + 1;
    }
    assert(texts(items@) =~= Seq::new(
        s@.len(),
        |i: int| "OutputWire { edges: "@ + edges_text(wires(s@)[i]) + " }"@,
    ));
    write_list(items.as_slice())
}

/// The scaling factor of a node as it is written, or nothing.
pub open spec fn scale_text(scales: Map<NodeId, String>, id: NodeId) -> Seq<char> {
    if scales.contains_key(id) {
        scales[id]@
    } else {
        ""@
    }
}

/// The lines on the first `k` nodes: where the inputs come from, and what the layer does.
pub open spec fn node_lines(
    g: Map<NodeId, NodeView<Element>>,
    order: Seq<NodeId>,
    scales: Map<NodeId, String>,
    k: nat,
) -> Seq<Seq<char>>
    decreases k,
{
    if k == 0 {
        Seq::empty()
    } else {
        let id = order[k - 1];
        node_lines(g, order, scales, (k - 1) as nat).push(
            "\t- "@ + decimal(id as nat) + ": "@ + edges_text(g[id].inputs),
        ).push(
            "\t- "@ + decimal(id as nat) + ": "@ + g[id].operation.text(scale_text(scales, id)),
        )
    }
}

/// The line on a node that gives outputs of the model.
pub open spec fn output_line(g: Map<NodeId, NodeView<Element>>, id: NodeId) -> Seq<char> {
    "\t- "@ + decimal(id as nat) + ":"@ + wires_text(g[id].outputs)
}

/// The description of a model whose nodes are gone through in the given orders.
pub open spec fn model_lines(
    g: Map<NodeId, NodeView<Element>>,
    unpadded: Seq<Seq<usize>>,
    scales: Map<NodeId, String>,
    order: Seq<NodeId>,
    outputs: Seq<NodeId>,
) -> Seq<Seq<char>> {
    seq![
        "Model description:"@,
        "Unpadded input shapes: "@ + shapes_text(unpadded),
        "Padded input shapes: "@ + shapes_text(
            Seq::new(unpadded.len(), |i: int| pow2_shape(unpadded[i])),
        ),
    ] + node_lines(g, order, scales, order.len()) + seq!["Output nodes:"@] + Seq::new(
        outputs.len(),
        |i: int| output_line(g, outputs[i]),
    )
}

/// The output nodes, each once.
pub open spec fn lists_outputs<N>(g: Map<NodeId, NodeView<N>>, outputs: Seq<NodeId>) -> bool {
    &&& outputs.no_duplicates()
    &&& forall|id: NodeId| #[trigger]
        outputs.contains(id) <==> g.contains_key(id) && is_output_node(g[id])
}

fn line(id: NodeId, middle: &str, text: &str) -> (r: String)
    ensures
        r@ == "\t- "@ + decimal(id as nat) + middle@ + text@,
{
    let mut s = String::from_str("\t- ");
    append_decimal(&mut s, id);
    s.append(middle);
    s.append(text);
    s
}

impl Model<Element> {
    /// The lines that describe the model: the shapes of the inputs, each node behind those that its
    /// inputs come from, and the nodes that give outputs. `scales` holds the scaling factors of the
    /// requantisations in decimal notation. None where the nodes cannot be put in such an order.
    pub fn describe(&self, scales: &HashMap<NodeId, String>) -> (r: Option<Vec<String>>)
        requires
            forall|i: int|
                0 <= i < self.unpadded_input_shapes@.len() ==> pow2_shape_fits(
                    #[trigger] shapes(self.unpadded_input_shapes@)[i],
                ),
            forall|id: NodeId| #[trigger]
                self.nodes@.contains_key(id) ==> self.nodes@[id].operation.describable(),
        ensures
            r is None ==> forall|order: Seq<NodeId>| !#[trigger] ordered(
                sources(self.nodes@),
                order,
            ),
            r matches Some(v) ==> exists|order: Seq<NodeId>, outputs: Seq<NodeId>|
                #![trigger ordered(sources(self.nodes@), order), lists_outputs(self.g(), outputs)]
                ordered(sources(self.nodes@), order) && lists_outputs(self.g(), outputs) && texts(
                    v@,
                ) == model_lines(
                    self.g(),
                    shapes(self.unpadded_input_shapes@),
                    scales@,
                    order,
                    outputs,
                ),
    {
        let ghost g = self.g();
        let order = match forward_order(&self.nodes) {
            Some(order) => order,
            None => {
                return None;
            },
        };
        proof {
            lemma_order_nodes(self.nodes@, order@);
        }
        let mut v: Vec<String> = Vec::new();
        v.push(String::from_str("Model description:"));
        v.push(
            joined(
                "Unpadded input shapes: ",
                write_shapes(self.unpadded_input_shapes.as_slice()).as_str(),
            ),
        );
        v.push(
            joined(
                "Padded input shapes: ",
                write_shapes(self.padded_input_shapes().as_slice()).as_str(),
            ),
        );
        let ghost head = texts(v@);
        let mut k: usize = 0;
        proof {
            assert(head + Seq::<Seq<char>>::empty() =~= head);
        }
        while k < order.len()
            invariant
                g == self.g(),
                forall|id: NodeId| #[trigger]
                    self.nodes@.contains_key(id) ==> self.nodes@[id].operation.describable(),
                forall|i: int|
                    0 <= i < order@.len() ==> self.nodes@.contains_key(#[trigger] order@[i]),
                k <= order@.len(),
                texts(v@) == head + node_lines(g, order@, scales@, k as nat),
            decreases order@.len() - k,
        {
            let id = order[k];
            assert(self.nodes@.contains_key(order@[k as int]));
            if let Some(node) = self.nodes.get(&id) {
                assert(g[id] == node@);
                let ghost before = v@;
                let scale = match scales.get(&id) {
                    Some(s) => s.as_str(),
                    None => "",
                };
                v.push(line(id, ": ", write_edges(node.inputs.as_slice()).as_str()));
                v.push(line(id, ": ", node.describe(scale).as_str()));
                assert(texts(v@) =~= head + node_lines(g, order@, scales@, (k + 1) as nat)) by {
                    assert(texts(v@) =~= texts(before).push(v@[before.len() as int]@).push(
                        v@[before.len() as int + 1]@,
                    ));
                }
            }
            k = k + 1;
        }
        let ghost middle = head + node_lines(g, order@, scales@, order@.len());
        let nodes = self.output_nodes();
        v.push(String::from_str("Output nodes:"));
        let ghost outputs = ids_of(nodes@);
        let ghost upto = middle + seq!["Output nodes:"@];
        let mut i: usize = 0;
        proof {
            assert(texts(v@) =~= upto);
            assert(upto + Seq::<Seq<char>>::empty() =~= upto);
            assert(Seq::new(0, |j: int| output_line(g, outputs[j])) =~= Seq::<Seq<char>>::empty());
        }
        while i < nodes.len()
            invariant
                g == self.g(),
                outputs == ids_of(nodes@),
                lists_outputs(g, outputs),
                forall|j: int|
                    0 <= j < nodes@.len() ==> *(#[trigger] nodes@[j]).1 == self.nodes@[nodes@[j].0],
                i <= nodes@.len(),
                texts(v@) == upto + Seq::new(i as nat, |j: int| output_line(g, outputs[j])),
            decreases nodes@.len() - i,
        {
            let (id, node) = nodes[i];
            proof {
                assert(outputs[i as int] == id);
                assert(outputs.contains(id));
                assert(g[id] == node@);
            }
            let ghost before = v@;
            v.push(line(id, ":", write_wires(node.outputs.as_slice()).as_str()));
            assert(texts(v@) =~= upto + Seq::new(
                (i + 1) as nat,
                |j: int| output_line(g, outputs[j]),
            )) by {
                assert(texts(v@) =~= texts(before).push(v@[before.len() as int]@));
            }
            i = i + 1;
        }
        proof {
            let u = shapes(self.unpadded_input_shapes@);
            assert(head =~= seq![
                "Model description:"@,
                "Unpadded input shapes: "@ + shapes_text(u),
                "Padded input shapes: "@ + shapes_text(
                    Seq::new(u.len(), |i: int| pow2_shape(u[i])),
                ),
            ]) by {
                assert(Seq::new(u.len(), |i: int| pow2_shape(u[i])) =~= Seq::new(
                    self.unpadded_input_shapes@.len(),
                    |i: int| pow2_shape(self.unpadded_input_shapes@[i]@),
                ));
            }
            assert(texts(v@) == model_lines(g, u, scales@, order@, outputs));
        }
        Some(v)
    }
}

} // verus!
