//! Inserting a requantisation after a node.
use crate::layers::Layer;
use crate::layers::provable::{Edge, Node, NodeId, OutputWire, empty_wires, wires};
use crate::layers::requant::Requant;
use crate::model::{
    Model, ModelError, NodeView, add_result, connected, dropped, edge_ok, first_bad, graph,
    is_least_free, lemma_first_bad, lemma_graph_insert, model_error, with_edge,
};
use crate::model::wiring::{edges_from, make_edges};
use crate::text::{append_decimal, decimal, decimal_text};
use vstd::prelude::*;
use vstd::slice::slice_to_vec;
use vstd::string::*;

verus! {

/// An input that takes an output of a node: the number of the output, and the input.
pub type Hop = (usize, Edge);

/// The inputs of nodes among what output `w` goes to.
pub open spec fn wire_hops(edges: Seq<Edge>, w: usize) -> Seq<Hop>
    decreases edges.len(),
{
    if edges.len() == 0 {
        Seq::empty()
    } else if edges.last().node is Some {
        wire_hops(edges.drop_last(), w).push((w, edges.last()))
    } else {
        wire_hops(edges.drop_last(), w)
    }
}

/// The inputs of nodes that take outputs of a node.
pub open spec fn hops(outputs: Seq<Seq<Edge>>) -> Seq<Hop>
    decreases outputs.len(),
{
    if outputs.len() == 0 {
        Seq::empty()
    } else {
        hops(outputs.drop_last()) + wire_hops(outputs.last(), (outputs.len() - 1) as usize)
    }
}

/// The input exists and takes an output of `from`.
pub open spec fn hop_ok<N>(g: Map<NodeId, NodeView<N>>, from: NodeId, h: Hop) -> bool {
    let n = h.1.node->0;
    g.contains_key(n) && h.1.index < g[n].inputs.len() && g[n].inputs[h.1.index as int].node
        == Some(from)
}

/// The graph with the first `k` inputs made to take the outputs of `to`.
pub open spec fn rewired<N>(
    g: Map<NodeId, NodeView<N>>,
    to: NodeId,
    list: Seq<Hop>,
    k: nat,
) -> Map<NodeId, NodeView<N>>
    decreases k,
{
    if k == 0 {
        g
    } else {
        let p = rewired(g, to, list, (k - 1) as nat);
        let h = list[k - 1];
        let n = h.1.node->0;
        p.insert(
            n,
            NodeView {
                inputs: p[n].inputs.update(
                    h.1.index as int,
                    Edge { node: Some(to), index: h.0 },
                ),
                ..p[n]
            },
        )
    }
}

/// Why an input cannot be made to take the output of the requantisation `to`.
pub open spec fn hop_message<N>(
    g: Map<NodeId, NodeView<N>>,
    from: NodeId,
    to: NodeId,
    h: Hop,
) -> Seq<char> {
    let n = h.1.node->0;
    if !g.contains_key(n) {
        "Node "@ + decimal(n as nat) + ", which should use an output of requant node "@ + decimal(
            to as nat,
        ) + ", not found in model"@
    } else if h.1.index >= g[n].inputs.len() {
        "Node "@ + decimal(n as nat) + " has "@ + decimal(g[n].inputs.len())
            + " inputs, so cannot access input "@ + decimal(h.1.index as nat)
    } else if g[n].inputs[h.1.index as int].node is None {
        decimal(h.1.index as nat) + " input of node "@ + decimal(n as nat)
            + " should not be an input of the model"@
    } else {
        decimal(h.1.index as nat) + " input of node "@ + decimal(n as nat) + " should be "@
            + decimal(from as nat)
    }
}

/// The graph with a requantisation `id` that takes all outputs of `from` and stands in for them,
/// the inputs that take outputs of `from` as they were.
pub open spec fn with_requant<N>(
    g: Map<NodeId, NodeView<N>>,
    from: NodeId,
    id: NodeId,
    requant: Requant,
) -> Map<NodeId, NodeView<N>> {
    let n = g[from].outputs.len();
    g.insert(
        from,
        NodeView {
            outputs: Seq::new(n, |i: int| seq![Edge { node: Some(id), index: i as usize }]),
            ..g[from]
        },
    ).insert(
        id,
        NodeView {
            inputs: edges_from(Some(from), n),
            outputs: g[from].outputs,
            operation: Layer::Requant(requant),
        },
    )
}

/// What inserting a requantisation leads to: the inputs that took outputs of the node take those of
/// the requantisation, up to the first for which this cannot be done.
pub open spec fn insert_result<N>(
    g: Map<NodeId, NodeView<N>>,
    from: NodeId,
    id: NodeId,
    requant: Requant,
    k: nat,
    r: Result<NodeId, ModelError>,
    after: Map<NodeId, NodeView<N>>,
) -> bool {
    let list = hops(g[from].outputs);
    let base = with_requant(g, from, id, requant);
    &&& is_least_free(g, id)
    &&& k <= list.len()
    &&& forall|j: int|
        0 <= j < k ==> hop_ok(rewired(base, id, list, j as nat), from, #[trigger] list[j])
    &&& after == rewired(base, id, list, k)
    &&& k == list.len() ==> r == Ok::<NodeId, ModelError>(id)
    &&& k < list.len() ==> !hop_ok(after, from, list[k as int]) && model_error(
        r,
        hop_message(after, from, id, list[k as int]),
    )
}

proof fn lemma_wire_hops_some(edges: Seq<Edge>, w: usize)
    ensures
        forall|j: int|
            0 <= j < wire_hops(edges, w).len() ==> (#[trigger] wire_hops(edges, w)[j]).1.node
                is Some,
    decreases edges.len(),
{
    if edges.len() > 0 {
        lemma_wire_hops_some(edges.drop_last(), w);
    }
}

proof fn lemma_hops_some(outputs: Seq<Seq<Edge>>)
    ensures
        forall|j: int|
            0 <= j < hops(outputs).len() ==> (#[trigger] hops(outputs)[j]).1.node is Some,
    decreases outputs.len(),
{
    if outputs.len() > 0 {
        lemma_hops_some(outputs.drop_last());
        lemma_wire_hops_some(outputs.last(), (outputs.len() - 1) as usize);
    }
}

/// Lists the inputs of nodes that take outputs of a node.
fn list_hops(outputs: &[OutputWire]) -> (r: Vec<Hop>)
    ensures
        r@ == hops(wires(outputs@)),
{
    let ghost all = wires(outputs@);
    let mut r: Vec<Hop> = Vec::new();
    let mut w: usize = 0;
    while w < outputs.len()
        invariant
            all == wires(outputs@),
            w <= outputs@.len(),
            r@ == hops(all.take(w as int)),
        decreases outputs@.len() - w,
    {
        let ghost before = r@;
        let ghost edges = outputs@[w as int].edges@;
        let mut j: usize = 0;
        while j < outputs[w].edges.len()
            invariant
                w < outputs@.len(),
                edges == outputs@[w as int].edges@,
                j <= edges.len(),
                r@ == before + wire_hops(edges.take(j as int), w),
            decreases edges.len() - j,
        {
            let e = outputs[w].edges[j];
            proof {
                assert(edges.take(j + 1).drop_last() =~= edges.take(j as int));
            }
            if e.node.is_some() {
                r.push((w, e));
                assert(r@ =~= before + wire_hops(edges.take(j + 1), w));
            }
            j = j + 1;
        }
        proof {
            assert(edges.take(j as int) =~= edges);
            assert(all.take(w + 1).drop_last() =~= all.take(w as int));
            assert(all.take(w + 1).last() == edges);
        }
        w = w + 1;
    }
    assert(all.take(w as int) =~= all);
    r
}

fn copy_wires(outputs: &[OutputWire]) -> (r: Vec<OutputWire>)
    ensures
        wires(r@) == wires(outputs@),
{
    let mut r: Vec<OutputWire> = Vec::new();
    let mut w: usize = 0;
    while w < outputs.len()
        invariant
            w <= outputs@.len(),
            r.len() == w,
            forall|j: int| 0 <= j < w ==> (#[trigger] r@[j]).edges@ == outputs@[j].edges@,
        decreases outputs@.len() - w,
    {
        r.push(OutputWire { edges: slice_to_vec(outputs[w].edges.as_slice()) });
        w = w + 1;
    }
    assert(wires(r@) =~= wires(outputs@));
    r
}

/// The graph after the outputs of `from` were cleared and the requantisation was added.
proof fn lemma_with_requant<N>(
    g: Map<NodeId, NodeView<N>>,
    from: NodeId,
    id: NodeId,
    requant: Requant,
)
    requires
        g.contains_key(from),
        !g.contains_key(id),
        g[from].outputs.len() <= usize::MAX,
    ensures
        ({
            let n = g[from].outputs.len();
            let cleared = g.insert(
                from,
                NodeView { outputs: Seq::new(n, |i: int| Seq::<Edge>::empty()), ..g[from] },
            );
            let inputs = edges_from(Some(from), n);
            &&& first_bad(cleared, inputs) == n
            &&& is_least_free(cleared, id) == is_least_free(g, id)
            &&& connected(cleared, id, inputs, n).insert(
                id,
                NodeView {
                    inputs,
                    outputs: g[from].outputs,
                    operation: Layer::Requant(requant),
                },
            ) == with_requant(g, from, id, requant)
        }),
{
    let n = g[from].outputs.len();
    let cleared = g.insert(
        from,
        NodeView { outputs: Seq::new(n, |i: int| Seq::<Edge>::empty()), ..g[from] },
    );
    let inputs = edges_from(Some(from), n);
    assert forall|i: int| 0 <= i < n implies edge_ok(cleared, #[trigger] inputs[i]) by {}
    lemma_first_bad(cleared, inputs, n);
    lemma_connect_all(cleared, from, id, n);
    assert(connected(cleared, id, inputs, n).insert(
        id,
        NodeView { inputs, outputs: g[from].outputs, operation: Layer::Requant(requant) },
    ) =~= with_requant(g, from, id, requant)) by {
        assert(Seq::new(
            n,
            |i: int|
                if i < n {
                    seq![Edge { node: Some(id), index: i as usize }]
                } else {
                    Seq::<Edge>::empty()
                },
        ) =~= Seq::new(n, |i: int| seq![Edge { node: Some(id), index: i as usize }]));
    }
    assert(forall|i: NodeId| cleared.contains_key(i) == g.contains_key(i));
    assert(is_least_free(cleared, id) == is_least_free(g, id)) by {
        if is_least_free(cleared, id) {
            assert forall|i: NodeId| i < id implies #[trigger] g.contains_key(i) by {
                assert(cleared.contains_key(i));
            }
        }
        if is_least_free(g, id) {
            assert forall|i: NodeId| i < id implies #[trigger] cleared.contains_key(i) by {
                assert(g.contains_key(i));
            }
        }
    }
}

proof fn lemma_connect_all<N>(g: Map<NodeId, NodeView<N>>, from: NodeId, id: NodeId, k: nat)
    requires
        g.contains_key(from),
        k <= g[from].outputs.len() <= usize::MAX,
        forall|i: int| 0 <= i < g[from].outputs.len() ==> (#[trigger] g[from].outputs[i]).len()
            == 0,
    ensures
        connected(g, id, edges_from(Some(from), g[from].outputs.len()), k) == g.insert(
            from,
            NodeView {
                outputs: Seq::new(
                    g[from].outputs.len(),
                    |i: int|
                        if i < k {
                            seq![Edge { node: Some(id), index: i as usize }]
                        } else {
                            Seq::<Edge>::empty()
                        },
                ),
                ..g[from]
            },
        ),
    decreases k,
{
    let n = g[from].outputs.len();
    let inputs = edges_from(Some(from), n);
    let want = Seq::new(
        n,
        |i: int|
            if i < k {
                seq![Edge { node: Some(id), index: i as usize }]
            } else {
                Seq::<Edge>::empty()
            },
    );
    if k == 0 {
        assert forall|i: int| 0 <= i < n implies g[from].outputs[i] == want[i] by {
            assert(g[from].outputs[i] =~= Seq::<Edge>::empty());
        }
        assert(g[from].outputs =~= want);
        assert(connected(g, id, inputs, k) =~= g.insert(
            from,
            NodeView { outputs: want, ..g[from] },
        ));
    } else {
        lemma_connect_all(g, from, id, (k - 1) as nat);
        let p = connected(g, id, inputs, (k - 1) as nat);
        let e = Edge { node: Some(id), index: (k - 1) as usize };
        assert(inputs[k - 1] == Edge { node: Some(from), index: (k - 1) as usize });
        assert(p[from].outputs[k - 1] =~= Seq::<Edge>::empty());
        assert(Seq::<Edge>::empty().push(e) =~= seq![e]);
        assert(with_edge(p[from], k - 1, e).outputs =~= want);
        assert(connected(g, id, inputs, k) =~= g.insert(
            from,
            NodeView { outputs: want, ..g[from] },
        ));
    }
}

impl<N> Model<N> {
    /// Inserts a requantisation after a node: it takes all outputs of the node, and whatever took an
    /// output of the node takes the requantised one.
    pub fn add_requant_node(&mut self, requant: Requant, input_node_id: NodeId) -> (r: Result<
        NodeId,
        ModelError,
    >)
        requires
            old(self).nodes@.dom().len() < usize::MAX,
        ensures
            final(self).input_shapes == old(self).input_shapes,
            final(self).unpadded_input_shapes == old(self).unpadded_input_shapes,
            if old(self).g().contains_key(input_node_id) {
                exists|id: NodeId, k: nat| #[trigger]
                    insert_result(
                        old(self).g(),
                        input_node_id,
                        id,
                        requant,
                        k,
                        r,
                        final(self).g(),
                    )
            } else {
                &&& model_error(
                    r,
                    "Node "@ + decimal(input_node_id as nat) + " not found in the model"@,
                )
                &&& final(self).g() == old(self).g()
            },
    {
        let ghost g = self.g();
        let ghost m = self.nodes@;
        match self.nodes.remove(&input_node_id) {
            Some(mut input_node) => {
                assert(graph(m)[input_node_id] == input_node@);
                assert(g.contains_key(input_node_id));
                let n = input_node.outputs.len();
                assert(wires(input_node.outputs@).len() == n);
                let list = list_hops(input_node.outputs.as_slice());
                proof {
                    lemma_hops_some(wires(input_node.outputs@));
                }
                let requant_node = Node::new_with_outputs(
                    make_edges(Some(input_node_id), n),
                    Layer::Requant(requant),
                    copy_wires(input_node.outputs.as_slice()),
                );
                let ghost rv = requant_node@;
                input_node.outputs = empty_wires(n);
                self.nodes.insert(input_node_id, input_node);
                proof {
                    lemma_graph_insert(m, input_node_id, input_node);
                    assert(self.nodes@.dom() =~= m.dom());
                    assert(rv == NodeView {
                        inputs: edges_from(Some(input_node_id), n as nat),
                        outputs: g[input_node_id].outputs,
                        operation: Layer::<N>::Requant(requant),
                    });
                }
                let ghost cleared = self.g();
                proof {
                    assert(cleared == g.insert(
                        input_node_id,
                        NodeView {
                            outputs: Seq::new(n as nat, |i: int| Seq::<Edge>::empty()),
                            ..g[input_node_id]
                        },
                    ));
                }
                let added = self.add_node(requant_node);
                proof {
                    let id = choose|id: NodeId| #[trigger]
                        is_least_free(cleared, id) && add_result(
                            cleared,
                            id,
                            rv,
                            dropped(added),
                            self.g(),
                        ) && (added is Ok ==> added->Ok_0 == id);
                    assert(!cleared.contains_key(id));
                    lemma_with_requant(g, input_node_id, id, requant);
                    assert(added is Ok);
                    assert(self.g() == with_requant(g, input_node_id, id, requant));
                }
                match added {
                    Ok(id) => {
                        let r = self.rewire(list.as_slice(), input_node_id, id);
                        proof {
                            let base = with_requant(g, input_node_id, id, requant);
                            let k = choose|k: nat| #[trigger]
                                rewire_result(base, list@, input_node_id, id, k, r, self.g());
                            assert(insert_result(g, input_node_id, id, requant, k, r, self.g()));
                        }
                        r
                    },
                    Err(e) => Err(e),
                }
            },
            None => {
                assert(self.nodes@ =~= m);
                let mut s = String::from_str("Node ");
                append_decimal(&mut s, input_node_id);
                s.append(" not found in the model");
                Err(ModelError { message: s })
            },
        }
    }

    /// Makes the listed inputs take the outputs of `to` instead of those of `from`.
    fn rewire(&mut self, list: &[Hop], from: NodeId, to: NodeId) -> (r: Result<NodeId, ModelError>)
        requires
            forall|j: int| 0 <= j < list@.len() ==> (#[trigger] list@[j]).1.node is Some,
        ensures
            final(self).input_shapes == old(self).input_shapes,
            final(self).unpadded_input_shapes == old(self).unpadded_input_shapes,
            exists|k: nat| #[trigger]
                rewire_result(old(self).g(), list@, from, to, k, r, final(self).g()),
    {
        let ghost g = self.g();
        let mut i: usize = 0;
        while i < list.len()
            invariant
                forall|j: int| 0 <= j < list@.len() ==> (#[trigger] list@[j]).1.node is Some,
                g == old(self).g(),
                self.input_shapes == old(self).input_shapes,
                self.unpadded_input_shapes == old(self).unpadded_input_shapes,
                i <= list@.len(),
                self.g() == rewired(g, to, list@, i as nat),
                forall|j: int|
                    0 <= j < i ==> hop_ok(
                        rewired(g, to, list@, j as nat),
                        from,
                        #[trigger] list@[j],
                    ),
            decreases list@.len() - i,
        {
            let (w, edge) = list[i];
            assert(list@[i as int].1.node is Some);
            let n = match edge.node {
                Some(n) => n,
                None => 0,
            };
            let ghost m = self.nodes@;
            let ghost p = self.g();
            match self.nodes.remove(&n) {
                Some(mut node) => {
                    assert(graph(m)[n] == node@);
                    assert(p.contains_key(n));
                    let count = node.inputs.len();
                    let fault: Option<String> = if edge.index >= count {
                        let mut s = String::from_str("Node ");
                        append_decimal(&mut s, n);
                        s.append(" has ");
                        append_decimal(&mut s, count);
                        s.append(" inputs, so cannot access input ");
                        append_decimal(&mut s, edge.index);
                        Some(s)
                    } else {
                        match node.inputs[edge.index].node {
                            None => {
                                let mut s = decimal_text(edge.index);
                                s.append(" input of node ");
                                append_decimal(&mut s, n);
                                s.append(" should not be an input of the model");
                                Some(s)
                            },
                            Some(source) => if source != from {
                                let mut s = decimal_text(edge.index);
                                s.append(" input of node ");
                                append_decimal(&mut s, n);
                                s.append(" should be ");
                                append_decimal(&mut s, from);
                                Some(s)
                            } else {
                                None
                            },
                        }
                    };
                    if let Some(message) = fault {
                        self.nodes.insert(n, node);
                        proof {
                            lemma_graph_insert(m, n, node);
                            assert(self.g() =~= p);
                        }
                        let r = Err(ModelError { message });
                        assert(rewire_result(g, list@, from, to, i as nat, r, self.g()));
                        return r;
                    }
                    node.inputs.set(edge.index, Edge { node: Some(to), index: w });
                    self.nodes.insert(n, node);
                    proof {
                        lemma_graph_insert(m, n, node);
                        assert(self.g() =~= rewired(g, to, list@, (i + 1) as nat));
                    }
                },
                None => {
                    assert(self.nodes@ =~= m);
                    let mut s = String::from_str("Node ");
                    append_decimal(&mut s, n);
                    s.append(", which should use an output of requant node ");
                    append_decimal(&mut s, to);
                    s.append(", not found in model");
                    let r = Err(ModelError { message: s });
                    assert(rewire_result(g, list@, from, to, i as nat, r, self.g()));
                    return r;
                },
            }
            i = i + 1;
        }
        let r = Ok(to);
        assert(rewire_result(g, list@, from, to, i as nat, r, self.g()));
        r
    }
}

/// What rewiring leads to: it stops at the first input for which it cannot be done.
pub open spec fn rewire_result<N>(
    base: Map<NodeId, NodeView<N>>,
    list: Seq<Hop>,
    from: NodeId,
    to: NodeId,
    k: nat,
    r: Result<NodeId, ModelError>,
    after: Map<NodeId, NodeView<N>>,
) -> bool {
    &&& k <= list.len()
    &&& forall|j: int|
        0 <= j < k ==> hop_ok(rewired(base, to, list, j as nat), from, #[trigger] list[j])
    &&& after == rewired(base, to, list, k)
    &&& k == list.len() ==> r == Ok::<NodeId, ModelError>(to)
    &&& k < list.len() ==> !hop_ok(after, from, list[k as int]) && model_error(
        r,
        hop_message(after, from, to, list[k as int]),
    )
}

} // verus!
