//! Building models: layers in a row, requantisation after a node, outputs of the model.
use crate::layers::Layer;
use crate::layers::provable::{Edge, Node, NodeId, OutputWire, wires};
use crate::model::{
    Model, ModelError, NodeView, connected, edge_ok, graph, is_least_free, lemma_first_bad,
    lemma_graph_insert, model_err, model_error, with_edge,
};
use crate::text::{append_decimal, decimal};
use vstd::prelude::*;
use vstd::string::*;

verus! {

// ---------------------------------------------------------------------------------------
// Layers in a row
// ---------------------------------------------------------------------------------------

/// The edges from all of the `n` outputs of a node, or from the inputs of the model.
pub open spec fn edges_from(node: Option<NodeId>, n: nat) -> Seq<Edge> {
    Seq::new(n, |i: int| Edge { node, index: i as usize })
}

pub fn make_edges(node: Option<NodeId>, n: usize) -> (r: Vec<Edge>)
    ensures
        r@ == edges_from(node, n as nat),
{
    let mut r: Vec<Edge> = Vec::new();
    let mut i: usize = 0;
    while i < n
        invariant
            i <= n,
            r@ == edges_from(node, i as nat),
        decreases n - i,
    {
        r.push(Edge { node, index: i });
        i = i + 1;
        assert(r@ =~= edges_from(node, i as nat));
    }
    r
}

/// A node whose outputs go nowhere.
pub open spec fn fresh_node<N>(inputs: Seq<Edge>, layer: Layer<N>) -> NodeView<N> {
    NodeView {
        inputs,
        outputs: Seq::new(inputs.len(), |i: int| Seq::<Edge>::empty()),
        operation: layer,
    }
}

impl<N> Model<N> {
    /// How many values a node, or the inputs of the model, hand on.
    pub open spec fn width(self, node: Option<NodeId>) -> nat {
        match node {
            Some(id) => self.g()[id].outputs.len(),
            None => self.input_shapes@.len(),
        }
    }

    /// Adds a layer that takes all outputs of a node already in the model, or all inputs of the
    /// model.
    pub fn add_consecutive_layer(
        &mut self,
        layer: Layer<N>,
        previous_node_id: Option<NodeId>,
    ) -> (r: Result<NodeId, ModelError>)
        requires
            old(self).nodes@.dom().len() < usize::MAX,
            previous_node_id matches Some(id) ==> old(self).g().contains_key(id)
                ==> layer.arity_ok(old(self).width(previous_node_id)),
            previous_node_id is None ==> layer.arity_ok(old(self).width(previous_node_id)),
        ensures
            final(self).input_shapes == old(self).input_shapes,
            final(self).unpadded_input_shapes == old(self).unpadded_input_shapes,
            if previous_node_id is Some && !old(self).g().contains_key(previous_node_id->0) {
                &&& model_error(
                    r,
                    "Node "@ + decimal(previous_node_id->0 as nat) + " not found in model"@,
                )
                &&& final(self).g() == old(self).g()
            } else {
                let node = fresh_node(
                    edges_from(previous_node_id, old(self).width(previous_node_id)),
                    layer,
                );
                exists|id: NodeId| #[trigger]
                    is_least_free(old(self).g(), id) && r == Ok::<NodeId, ModelError>(id)
                        && final(self).g() == connected(
                        old(self).g(),
                        id,
                        node.inputs,
                        node.inputs.len(),
                    ).insert(id, node)
            },
    {
        let n: usize = match previous_node_id {
            Some(id) => match self.nodes.get(&id) {
                Some(previous) => {
                    assert(self.g()[id] == previous@);
                    previous.outputs.len()
                },
                None => {
                    let mut s = String::from_str("Node ");
                    append_decimal(&mut s, id);
                    s.append(" not found in model");
                    return Err(ModelError { message: s });
                },
            },
            None => self.input_shapes.len(),
        };
        let node = Node::new(make_edges(previous_node_id, n), layer);
        proof {
            assert(node@ =~= fresh_node(edges_from(previous_node_id, n as nat), layer));
            assert forall|i: int| 0 <= i < node@.inputs.len() implies edge_ok(
                self.g(),
                #[trigger] node@.inputs[i],
            ) by {}
            lemma_first_bad(self.g(), node@.inputs, node@.inputs.len());
        }
        self.add_node(node)
    }
}

// ---------------------------------------------------------------------------------------
// Outputs of the model
// ---------------------------------------------------------------------------------------

/// The output that the edge names exists.
pub open spec fn route_ok<N>(g: Map<NodeId, NodeView<N>>, e: Edge) -> bool {
    e.node is Some && g.contains_key(e.node->0) && e.index < g[e.node->0].outputs.len()
}

/// The graph with the first `k` edges made the outputs of the model with these numbers.
pub open spec fn routed<N>(
    g: Map<NodeId, NodeView<N>>,
    edges: Seq<Edge>,
    k: nat,
) -> Map<NodeId, NodeView<N>>
    decreases k,
{
    if k == 0 {
        g
    } else {
        let p = routed(g, edges, (k - 1) as nat);
        let e = edges[k - 1];
        p.insert(
            e.node->0,
            with_edge(
                p[e.node->0],
                e.index as int,
                Edge { node: None, index: (k - 1) as usize },
            ),
        )
    }
}

/// Why an edge cannot be an output of the model.
pub open spec fn route_message<N>(g: Map<NodeId, NodeView<N>>, e: Edge) -> Seq<char> {
    match e.node {
        None => "Provided output edge with no input node"@,
        Some(n) => if !g.contains_key(n) {
            "Node "@ + decimal(n as nat) + " not found"@
        } else {
            "Specified output "@ + decimal(e.index as nat) + " for node "@ + decimal(n as nat)
                + ", but only "@ + decimal(g[n].outputs.len()) + " outputs found"@
        },
    }
}

/// What making the edges outputs of the model leads to: it stops at the first that names no
/// output; the edges before it stay.
pub open spec fn route_result<N>(
    g: Map<NodeId, NodeView<N>>,
    edges: Seq<Edge>,
    k: nat,
    r: Result<(), ModelError>,
    after: Map<NodeId, NodeView<N>>,
) -> bool {
    &&& k <= edges.len()
    &&& forall|i: int| 0 <= i < k ==> route_ok(g, #[trigger] edges[i])
    &&& after == routed(g, edges, k)
    &&& k == edges.len() ==> r is Ok
    &&& k < edges.len() ==> !route_ok(g, edges[k as int]) && model_error(
        r,
        route_message(g, edges[k as int]),
    )
}

/// Routing changes neither the nodes that there are nor their numbers of outputs, nor anything
/// else of them.
pub proof fn lemma_routed<N>(g: Map<NodeId, NodeView<N>>, edges: Seq<Edge>, k: nat)
    requires
        k <= edges.len(),
        forall|i: int| 0 <= i < k ==> route_ok(g, #[trigger] edges[i]),
    ensures
        routed(g, edges, k).dom() == g.dom(),
        forall|n: NodeId|
            g.contains_key(n) ==> {
                let c = #[trigger] routed(g, edges, k)[n];
                c.outputs.len() == g[n].outputs.len() && c.inputs == g[n].inputs && c.operation
                    == g[n].operation
            },
    decreases k,
{
    if k > 0 {
        lemma_routed(g, edges, (k - 1) as nat);
        assert(route_ok(g, edges[k - 1]));
        assert(routed(g, edges, k).dom() =~= g.dom());
    }
}

/// No output of the node goes anywhere.
pub open spec fn unrouted<N>(n: NodeView<N>) -> bool {
    forall|w: int| 0 <= w < n.outputs.len() ==> (#[trigger] n.outputs[w]).len() == 0
}

/// The node with its outputs made the outputs of the model, in order.
pub open spec fn as_output<N>(n: NodeView<N>) -> NodeView<N> {
    NodeView {
        outputs: Seq::new(
            n.outputs.len(),
            |i: int| seq![Edge { node: None, index: i as usize }],
        ),
        ..n
    }
}

impl<N> Node<N> {
    fn is_unrouted(&self) -> (r: bool)
        ensures
            r == unrouted(self@),
    {
        let mut w: usize = 0;
        while w < self.outputs.len()
            invariant
                w <= self.outputs@.len(),
                forall|u: int| 0 <= u < w ==> (#[trigger] self@.outputs[u]).len() == 0,
            decreases self.outputs@.len() - w,
        {
            assert(self@.outputs[w as int] == self.outputs@[w as int].edges@);
            if self.outputs[w].edges.len() != 0 {
                return false;
            }
            w = w + 1;
        }
        true
    }

    fn make_output(&mut self)
        ensures
            final(self)@ == as_output(old(self)@),
    {
        let n = self.outputs.len();
        let mut outputs: Vec<OutputWire> = Vec::new();
        let mut i: usize = 0;
        while i < n
            invariant
                i <= n,
                outputs.len() == i,
                forall|j: int|
                    0 <= j < i ==> (#[trigger] outputs@[j]).edges@ == seq![
                        Edge { node: None, index: j as usize },
                    ],
            decreases n - i,
        {
            let mut edges: Vec<Edge> = Vec::new();
            edges.push(Edge { node: None, index: i });
            assert(edges@ =~= seq![Edge { node: None, index: i }]);
            outputs.push(OutputWire { edges });
            i = i + 1;
        }
        self.outputs = outputs;
        assert(self@ =~= as_output(old(self)@)) by {
            assert(self@.outputs =~= as_output(old(self)@).outputs);
        }
    }
}

impl<N> Model<N> {
    /// Makes the given edges the outputs of the model. If none are given, the outputs of a node
    /// whose outputs go nowhere are made the outputs of the model.
    pub fn route_output(&mut self, output_edges: Option<Vec<Edge>>) -> (r: Result<(), ModelError>)
        ensures
            final(self).input_shapes == old(self).input_shapes,
            final(self).unpadded_input_shapes == old(self).unpadded_input_shapes,
            output_edges matches Some(edges) ==> exists|k: nat| #[trigger]
                route_result(old(self).g(), edges@, k, r, final(self).g()),
            output_edges is None ==> if exists|id: NodeId| #[trigger]
                old(self).g().contains_key(id) && unrouted(old(self).g()[id]) {
                &&& r is Ok
                &&& exists|id: NodeId| #[trigger]
                    old(self).g().contains_key(id) && unrouted(old(self).g()[id])
                        && final(self).g() == old(self).g().insert(
                        id,
                        as_output(old(self).g()[id]),
                    )
            } else {
                &&& model_error(r, "No output node found for model"@)
                &&& final(self).g() == old(self).g()
            },
    {
        match output_edges {
            Some(edges) => self.route_edges(edges.as_slice()),
            None => self.route_unrouted(),
        }
    }

    fn route_edges(&mut self, edges: &[Edge]) -> (r: Result<(), ModelError>)
        ensures
            final(self).input_shapes == old(self).input_shapes,
            final(self).unpadded_input_shapes == old(self).unpadded_input_shapes,
            exists|k: nat| #[trigger]
                route_result(old(self).g(), edges@, k, r, final(self).g()),
    {
        let ghost g = self.g();
        let mut i: usize = 0;
        while i < edges.len()
            invariant
                g == old(self).g(),
                self.input_shapes == old(self).input_shapes,
                self.unpadded_input_shapes == old(self).unpadded_input_shapes,
                i <= edges@.len(),
                forall|j: int| 0 <= j < i ==> route_ok(g, #[trigger] edges@[j]),
                self.g() == routed(g, edges@, i as nat),
            decreases edges@.len() - i,
        {
            let edge = edges[i];
            proof {
                lemma_routed(g, edges@, i as nat);
            }
            let n = match edge.node {
                Some(n) => n,
                None => {
                    let r = model_err("Provided output edge with no input node");
                    assert(route_result(g, edges@, i as nat, r, self.g()));
                    return r;
                },
            };
            let ghost m = self.nodes@;
            match self.nodes.remove(&n) {
                Some(mut source) => {
                    assert(graph(m)[n] == source@);
                    assert(graph(m).contains_key(n));
                    let count = source.outputs.len();
                    assert(wires(source.outputs@).len() == count);
                    if edge.index >= count {
                        self.nodes.insert(n, source);
                        proof {
                            lemma_graph_insert(m, n, source);
                            assert(self.g() =~= graph(m));
                        }
                        let mut s = String::from_str("Specified output ");
                        append_decimal(&mut s, edge.index);
                        s.append(" for node ");
                        append_decimal(&mut s, n);
                        s.append(", but only ");
                        append_decimal(&mut s, count);
                        s.append(" outputs found");
                        let r = Err(ModelError { message: s });
                        assert(route_result(g, edges@, i as nat, r, self.g()));
                        return r;
                    }
                    source.push_edge(edge.index, Edge { node: None, index: i });
                    self.nodes.insert(n, source);
                    proof {
                        lemma_graph_insert(m, n, source);
                    }
                },
                None => {
                    assert(self.nodes@ =~= m);
                    assert(!graph(m).contains_key(n));
                    let mut s = String::from_str("Node ");
                    append_decimal(&mut s, n);
                    s.append(" not found");
                    let r = Err(ModelError { message: s });
                    assert(route_result(g, edges@, i as nat, r, self.g()));
                    return r;
                },
            }
            i = i + 1;
        }
        let r = Ok(());
        assert(route_result(g, edges@, i as nat, r, self.g()));
        r
    }

    fn route_unrouted(&mut self) -> (r: Result<(), ModelError>)
        ensures
            final(self).input_shapes == old(self).input_shapes,
            final(self).unpadded_input_shapes == old(self).unpadded_input_shapes,
            if exists|id: NodeId| #[trigger]
                old(self).g().contains_key(id) && unrouted(old(self).g()[id]) {
                &&& r is Ok
                &&& exists|id: NodeId| #[trigger]
                    old(self).g().contains_key(id) && unrouted(old(self).g()[id])
                        && final(self).g() == old(self).g().insert(
                        id,
                        as_output(old(self).g()[id]),
                    )
            } else {
                &&& model_error(r, "No output node found for model"@)
                &&& final(self).g() == old(self).g()
            },
    {
        let ids = self.node_ids();
        let mut i: usize = 0;
        while i < ids.len()
            invariant
                *self == *old(self),
                ids@.to_set() == self.nodes@.dom(),
                i <= ids@.len(),
                forall|j: int| 0 <= j < i ==> !unrouted(self.g()[#[trigger] ids@[j]]),
            decreases ids@.len() - i,
        {
            let id = ids[i];
            assert(ids@.to_set().contains(ids@[i as int]));
            let found = match self.nodes.get(&id) {
                Some(node) => node.is_unrouted(),
                None => false,
            };
            if found {
                let ghost m = self.nodes@;
                assert(self.g().contains_key(id) && unrouted(self.g()[id]));
                if let Some(mut node) = self.nodes.remove(&id) {
                    assert(graph(m)[id] == node@);
                    node.make_output();
                    self.nodes.insert(id, node);
                    proof {
                        lemma_graph_insert(m, id, node);
                    }
                }
                return Ok(());
            }
            i = i + 1;
        }
        proof {
            assert forall|id: NodeId| #[trigger] self.g().contains_key(id) implies !unrouted(
                self.g()[id],
            ) by {
                assert(ids@.to_set().contains(id));
                let j = choose|j: int| 0 <= j < ids@.len() && ids@[j] == id;
                assert(!unrouted(self.g()[ids@[j]]));
            }
        }
        model_err("No output node found for model")
    }
}

} // verus!
