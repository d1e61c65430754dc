//! Models: layers connected to a graph.
pub mod wiring;
pub mod consistency;
pub mod description;
pub mod faults;
pub mod inputs;
pub mod insertion;
pub mod order;
pub mod run;
pub mod trace;

use crate::iop::context::copy_shapes;
use crate::layers::Layer;
use crate::layers::provable::{Edge, Node, NodeCtx, NodeId, PaddingMode, wires};
use crate::shape::{next_power_of_two_shape, pow2_shape, pow2_shape_fits, shapes};
use crate::text::{append_decimal, decimal};
use std::collections::HashMap;
use vstd::prelude::*;
use vstd::string::*;

verus! {

/// A model: nodes by their numbers, and the shapes of the inputs, as given and as the model expects
/// them.
#[derive(Clone, Debug)]
pub struct Model<N> {
    pub nodes: HashMap<NodeId, Node<N>>,
    pub input_shapes: Vec<Vec<usize>>,
    pub unpadded_input_shapes: Vec<Vec<usize>>,
}

/// What the set-up keeps of all nodes.
#[derive(Clone, Debug)]
pub struct ModelCtx {
    pub nodes: HashMap<NodeId, NodeCtx>,
}

/// What goes wrong with a model.
#[derive(Clone, Debug)]
pub struct ModelError {
    pub message: String,
}

/// The content of a node.
#[verifier::ext_equal]
pub struct NodeView<N> {
    pub inputs: Seq<Edge>,
    pub outputs: Seq<Seq<Edge>>,
    pub operation: Layer<N>,
}

impl<N> View for Node<N> {
    type V = NodeView<N>;

    open spec fn view(&self) -> NodeView<N> {
        NodeView {
            inputs: self.inputs@,
            outputs: wires(self.outputs@),
            operation: self.operation,
        }
    }
}

/// The content of a graph.
pub open spec fn graph<N>(m: Map<NodeId, Node<N>>) -> Map<NodeId, NodeView<N>> {
    m.map_values(|n: Node<N>| n@)
}

/// `r` failed with the message `m`.
pub open spec fn model_error<T>(r: Result<T, ModelError>, m: Seq<char>) -> bool {
    r matches Err(e) && e.message@ == m
}

pub fn model_err<T>(m: &str) -> (r: Result<T, ModelError>)
    ensures
        model_error(r, m@),
{
    Err(ModelError { message: String::from_str(m) })
}

/// The keys of a map, each once.
pub fn keys_of<V>(m: &HashMap<NodeId, V>) -> (r: Vec<NodeId>)
    ensures
        r@.no_duplicates(),
        r@.to_set() == m@.dom(),
{
    let mut r: Vec<NodeId> = Vec::new();
    for k in it: m.keys()
        invariant
            it.seq().unref().to_set() == m@.dom(),
            r@ == it.seq().unref().take(it.index() as int),
            it.index() == it.seq().len() ==> r@ == it.seq().unref(),
    {
        r.push(*k);
        assert(r@ =~= it.seq().unref().take(it.index() + 1));
    }
    r
}

// ---------------------------------------------------------------------------------------
// Connections
// ---------------------------------------------------------------------------------------

/// Node `n` with `e` added to what output `index` goes to.
pub open spec fn with_edge<N>(n: NodeView<N>, index: int, e: Edge) -> NodeView<N> {
    NodeView { outputs: n.outputs.update(index, n.outputs[index].push(e)), ..n }
}

/// The output that an input names exists.
pub open spec fn edge_ok<N>(g: Map<NodeId, NodeView<N>>, e: Edge) -> bool {
    e.node matches Some(n) ==> g.contains_key(n) && e.index < g[n].outputs.len()
}

/// The graph with the first `k` of the inputs of the new node `id` connected.
pub open spec fn connected<N>(
    g: Map<NodeId, NodeView<N>>,
    id: NodeId,
    inputs: Seq<Edge>,
    k: nat,
) -> Map<NodeId, NodeView<N>>
    decreases k,
{
    if k == 0 {
        g
    } else {
        let p = connected(g, id, inputs, (k - 1) as nat);
        let e = inputs[k - 1];
        match e.node {
            Some(n) => p.insert(
                n,
                with_edge(p[n], e.index as int, Edge { node: Some(id), index: (k - 1) as usize }),
            ),
            None => p,
        }
    }
}

/// The first input that names an output that does not exist, or the number of inputs.
pub open spec fn first_bad<N>(g: Map<NodeId, NodeView<N>>, inputs: Seq<Edge>) -> nat
    decreases inputs.len(),
{
    if inputs.len() == 0 || !edge_ok(g, inputs[0]) {
        0
    } else {
        1 + first_bad(g, inputs.skip(1))
    }
}

/// Why an input cannot be connected.
pub open spec fn connect_message<N>(
    g: Map<NodeId, NodeView<N>>,
    e: Edge,
    i: nat,
) -> Seq<char> {
    let n = e.node->0;
    if !g.contains_key(n) {
        "Node "@ + decimal(n as nat) + " for input "@ + decimal(i)
            + " of new node not found in model"@
    } else {
        "Specified output number "@ + decimal(e.index as nat) + " for node "@ + decimal(n as nat)
            + ", which has only "@ + decimal(g[n].outputs.len()) + " outputs"@
    }
}

/// Connecting changes neither the nodes that there are, nor their numbers of outputs, nor anything
/// else of them.
pub proof fn lemma_connected<N>(
    g: Map<NodeId, NodeView<N>>,
    id: NodeId,
    inputs: Seq<Edge>,
    k: nat,
)
    requires
        k <= inputs.len(),
        forall|i: int| 0 <= i < k ==> edge_ok(g, #[trigger] inputs[i]),
    ensures
        connected(g, id, inputs, k).dom() == g.dom(),
        forall|n: NodeId|
            g.contains_key(n) ==> {
                let c = #[trigger] connected(g, id, inputs, k)[n];
                c.outputs.len() == g[n].outputs.len() && c.inputs == g[n].inputs && c.operation
                    == g[n].operation
            },
    decreases k,
{
    if k > 0 {
        lemma_connected(g, id, inputs, (k - 1) as nat);
        assert(edge_ok(g, inputs[k - 1]));
        assert(connected(g, id, inputs, k).dom() =~= g.dom());
    }
}

/// After a node is connected, each of its inputs that comes from another node stands among what the
/// output that it names goes to.
pub proof fn law_connected<N>(g: Map<NodeId, NodeView<N>>, id: NodeId, inputs: Seq<Edge>, i: int)
    requires
        0 <= i < inputs.len() <= usize::MAX,
        inputs[i].node is Some,
        forall|j: int| 0 <= j < inputs.len() ==> edge_ok(g, #[trigger] inputs[j]),
    ensures
        connected(g, id, inputs, inputs.len())[inputs[i].node->0].outputs[inputs[i].index as int]
            .contains(Edge { node: Some(id), index: i as usize }),
{
    lemma_connected_from(g, id, inputs, i, inputs.len());
}

proof fn lemma_connected_from<N>(
    g: Map<NodeId, NodeView<N>>,
    id: NodeId,
    inputs: Seq<Edge>,
    i: int,
    k: nat,
)
    requires
        0 <= i < k <= inputs.len(),
        inputs[i].node is Some,
        forall|j: int| 0 <= j < inputs.len() ==> edge_ok(g, #[trigger] inputs[j]),
    ensures
        connected(g, id, inputs, k)[inputs[i].node->0].outputs[inputs[i].index as int].contains(
            Edge { node: Some(id), index: i as usize },
        ),
    decreases k,
{
    let p = connected(g, id, inputs, (k - 1) as nat);
    let want = Edge { node: Some(id), index: i as usize };
    let n = inputs[i].node->0;
    let x = inputs[i].index as int;
    lemma_connected(g, id, inputs, (k - 1) as nat);
    assert(edge_ok(g, inputs[i]));
    assert(edge_ok(g, inputs[k - 1]));
    if i == k - 1 {
        let s = p[n].outputs[x].push(want);
        assert(s[s.len() - 1] == want);
        assert(connected(g, id, inputs, k)[n].outputs[x] == s);
    } else {
        lemma_connected_from(g, id, inputs, i, (k - 1) as nat);
        let j = choose|j: int| 0 <= j < p[n].outputs[x].len() && p[n].outputs[x][j] == want;
        let s = connected(g, id, inputs, k)[n].outputs[x];
        assert(s[j] == want);
    }
}

pub proof fn lemma_first_bad<N>(g: Map<NodeId, NodeView<N>>, inputs: Seq<Edge>, k: nat)
    requires
        k <= inputs.len(),
        forall|i: int| 0 <= i < k ==> edge_ok(g, #[trigger] inputs[i]),
    ensures
        k < inputs.len() && !edge_ok(g, inputs[k as int]) ==> first_bad(g, inputs) == k,
        k == inputs.len() ==> first_bad(g, inputs) == k,
    decreases k,
{
    if k > 0 {
        assert(edge_ok(g, inputs[0]));
        assert forall|i: int| 0 <= i < k - 1 implies edge_ok(g, #[trigger] inputs.skip(1)[i]) by {
            assert(edge_ok(g, inputs[i + 1]));
        }
        lemma_first_bad(g, inputs.skip(1), (k - 1) as nat);
    }
}

impl<N> Node<N> {
    /// Adds `e` to what output `index` goes to.
    pub fn push_edge(&mut self, index: usize, e: Edge)
        requires
            index < old(self).outputs@.len(),
        ensures
            final(self)@ == with_edge(old(self)@, index as int, e),
    {
        let ghost before = self@;
        self.outputs[index].edges.push(e);
        assert(self@.outputs =~= with_edge(before, index as int, e).outputs);
    }
}

/// The graph without node `id` that was taken out and put back is the graph.
pub proof fn lemma_graph_insert<N>(m: Map<NodeId, Node<N>>, id: NodeId, n: Node<N>)
    ensures
        graph(m.insert(id, n)) == graph(m).insert(id, n@),
        graph(m.remove(id).insert(id, n)) == graph(m).insert(id, n@),
{
    assert(graph(m.insert(id, n)) =~= graph(m).insert(id, n@));
    assert(graph(m.remove(id).insert(id, n)) =~= graph(m).insert(id, n@));
}

// ---------------------------------------------------------------------------------------
// Building
// ---------------------------------------------------------------------------------------

/// The least number from `i` on that is not the number of a node.
pub open spec fn is_least_free<N>(g: Map<NodeId, NodeView<N>>, id: NodeId) -> bool {
    &&& !g.contains_key(id)
    &&& forall|i: NodeId| i < id ==> #[trigger] g.contains_key(i)
}

/// The numbers below `n`.
pub open spec fn below(n: nat) -> Set<NodeId>
    decreases n,
{
    if n == 0 {
        Set::empty()
    } else {
        below((n - 1) as nat).insert((n - 1) as usize)
    }
}

pub proof fn lemma_below(n: nat)
    requires
        n <= usize::MAX + 1,
    ensures
        below(n).finite(),
        below(n).len() == n,
        forall|i: NodeId| below(n).contains(i) <==> i < n,
    decreases n,
{
    if n > 0 {
        lemma_below((n - 1) as nat);
    }
}

/// What adding a node to a graph leads to.
pub open spec fn add_result<N>(
    g: Map<NodeId, NodeView<N>>,
    id: NodeId,
    node: NodeView<N>,
    r: Result<(), ModelError>,
    after: Map<NodeId, NodeView<N>>,
) -> bool {
    let bad = first_bad(g, node.inputs);
    if bad < node.inputs.len() {
        // the inputs before the bad one stay connected
        &&& model_error(r, connect_message(g, node.inputs[bad as int], bad))
        &&& after == connected(g, id, node.inputs, bad)
    } else {
        &&& r is Ok
        &&& after == connected(g, id, node.inputs, node.inputs.len()).insert(id, node)
    }
}

impl<N> Model<N> {
    /// The graph of the model.
    pub open spec fn g(self) -> Map<NodeId, NodeView<N>> {
        graph(self.nodes@)
    }

    /// The shapes of the inputs raised to powers of two.
    fn compute_padded_input_shapes(unpadded_input_shapes: &[Vec<usize>]) -> (r: Vec<Vec<usize>>)
        requires
            forall|i: int|
                0 <= i < unpadded_input_shapes@.len() ==> pow2_shape_fits(
                    #[trigger] shapes(unpadded_input_shapes@)[i],
                ),
        ensures
            shapes(r@) == Seq::new(
                unpadded_input_shapes@.len(),
                |i: int| pow2_shape(unpadded_input_shapes@[i]@),
            ),
    {
        let mut r: Vec<Vec<usize>> = Vec::new();
        let mut i: usize = 0;
        while i < unpadded_input_shapes.len()
            invariant
                forall|i: int|
                    0 <= i < unpadded_input_shapes@.len() ==> pow2_shape_fits(
                        #[trigger] shapes(unpadded_input_shapes@)[i],
                    ),
                i <= unpadded_input_shapes@.len(),
                r.len() == i,
                forall|j: int|
                    0 <= j < i ==> (#[trigger] r[j])@ == pow2_shape(unpadded_input_shapes@[j]@),
            decreases unpadded_input_shapes@.len() - i,
        {
            assert(pow2_shape_fits(shapes(unpadded_input_shapes@)[i as int]));
            r.push(next_power_of_two_shape(unpadded_input_shapes[i].as_slice()));
            i = i + 1;
        }
        assert(shapes(r@) =~= Seq::new(
            unpadded_input_shapes@.len(),
            |i: int| pow2_shape(unpadded_input_shapes@[i]@),
        ));
        r
    }

    /// Creates a model without nodes, whose inputs have the given shapes, padded or not.
    pub fn new_from_input_shapes(
        unpadded_input_shapes: Vec<Vec<usize>>,
        padding: PaddingMode,
    ) -> (r: Self)
        requires
            padding == PaddingMode::Padding ==> forall|i: int|
                0 <= i < unpadded_input_shapes@.len() ==> pow2_shape_fits(
                    #[trigger] shapes(unpadded_input_shapes@)[i],
                ),
        ensures
            r.nodes@ == Map::<NodeId, Node<N>>::empty(),
            r.unpadded_input_shapes == unpadded_input_shapes,
            shapes(r.input_shapes@) == match padding {
                PaddingMode::NoPadding => shapes(unpadded_input_shapes@),
                PaddingMode::Padding => Seq::new(
                    unpadded_input_shapes@.len(),
                    |i: int| pow2_shape(unpadded_input_shapes@[i]@),
                ),
            },
    {
        let input_shapes = match padding {
            PaddingMode::NoPadding => copy_shapes(unpadded_input_shapes.as_slice()),
            PaddingMode::Padding => Model::<N>::compute_padded_input_shapes(
                unpadded_input_shapes.as_slice(),
            ),
        };
        Model { nodes: HashMap::new(), input_shapes, unpadded_input_shapes }
    }

    /// Creates a model with the given nodes, whose inputs have the given shapes, padded or not.
    pub fn new(
        unpadded_input_shapes: Vec<Vec<usize>>,
        padding: PaddingMode,
        nodes: HashMap<NodeId, Node<N>>,
    ) -> (r: Self)
        requires
            padding == PaddingMode::Padding ==> forall|i: int|
                0 <= i < unpadded_input_shapes@.len() ==> pow2_shape_fits(
                    #[trigger] shapes(unpadded_input_shapes@)[i],
                ),
        ensures
            r.nodes == nodes,
            r.unpadded_input_shapes == unpadded_input_shapes,
            shapes(r.input_shapes@) == match padding {
                PaddingMode::NoPadding => shapes(unpadded_input_shapes@),
                PaddingMode::Padding => Seq::new(
                    unpadded_input_shapes@.len(),
                    |i: int| pow2_shape(unpadded_input_shapes@[i]@),
                ),
            },
    {
        let mut model = Model::new_from_input_shapes(unpadded_input_shapes, padding);
        model.nodes = nodes;
        model
    }

    /// Creates a model with the given nodes, the given shapes of the inputs, and the shapes that it
    /// expects them in.
    pub fn new_from_shapes(
        unpadded_input_shapes: Vec<Vec<usize>>,
        actual_input_shapes: Vec<Vec<usize>>,
        nodes: HashMap<NodeId, Node<N>>,
    ) -> (r: Self)
        ensures
            r.nodes == nodes,
            r.unpadded_input_shapes == unpadded_input_shapes,
            r.input_shapes == actual_input_shapes,
    {
        Model { nodes, input_shapes: actual_input_shapes, unpadded_input_shapes }
    }

    /// The shapes of the inputs, not padded.
    pub fn unpadded_input_shapes(&self) -> (r: Vec<Vec<usize>>)
        ensures
            shapes(r@) == shapes(self.unpadded_input_shapes@),
    {
        copy_shapes(self.unpadded_input_shapes.as_slice())
    }

    /// The shapes that the model expects its inputs in.
    pub fn input_shapes(&self) -> (r: Vec<Vec<usize>>)
        ensures
            shapes(r@) == shapes(self.input_shapes@),
    {
        copy_shapes(self.input_shapes.as_slice())
    }

    pub fn num_inputs(&self) -> (r: usize)
        ensures
            r == self.input_shapes@.len(),
    {
        self.input_shapes.len()
    }

    /// The shapes of the inputs raised to powers of two.
    pub fn padded_input_shapes(&self) -> (r: Vec<Vec<usize>>)
        requires
            forall|i: int|
                0 <= i < self.unpadded_input_shapes@.len() ==> pow2_shape_fits(
                    #[trigger] shapes(self.unpadded_input_shapes@)[i],
                ),
        ensures
            shapes(r@) == Seq::new(
                self.unpadded_input_shapes@.len(),
                |i: int| pow2_shape(self.unpadded_input_shapes@[i]@),
            ),
    {
        Model::<N>::compute_padded_input_shapes(self.unpadded_input_shapes.as_slice())
    }

    /// The numbers of the nodes, each once, in no particular order.
    pub fn node_ids(&self) -> (r: Vec<NodeId>)
        ensures
            r@.no_duplicates(),
            r@.to_set() == self.nodes@.dom(),
    {
        keys_of(&self.nodes)
    }

    /// The nodes with their numbers, each once, in no particular order.
    pub fn to_unstable_iterator(&self) -> (r: Vec<(NodeId, &Node<N>)>)
        ensures
            r@.map_values(|p: (NodeId, &Node<N>)| p.0).no_duplicates(),
            r@.map_values(|p: (NodeId, &Node<N>)| p.0).to_set() == self.nodes@.dom(),
            forall|i: int|
                0 <= i < r@.len() ==> *(#[trigger] r@[i]).1 == self.nodes@[r@[i].0],
    {
        let ids = self.node_ids();
        let mut r: Vec<(NodeId, &Node<N>)> = Vec::new();
        let mut i: usize = 0;
        while i < ids.len()
            invariant
                ids@.to_set() == self.nodes@.dom(),
                i <= ids@.len(),
                r.len() == i,
                forall|j: int| 0 <= j < i ==> (#[trigger] r@[j]).0 == ids@[j],
                forall|j: int| 0 <= j < i ==> *(#[trigger] r@[j]).1 == self.nodes@[ids@[j]],
            decreases ids@.len() - i,
        {
            assert(ids@.to_set().contains(ids@[i as int]));
            match self.nodes.get(&ids[i]) {
                Some(n) => {
                    r.push((ids[i], n));
                },
                None => {},
            }
            i = i + 1;
        }
        assert(r@.map_values(|p: (NodeId, &Node<N>)| p.0) =~= ids@);
        r
    }

    /// Adds a node. Its number is the least that is free.
    pub fn add_node(&mut self, node: Node<N>) -> (r: Result<NodeId, ModelError>)
        requires
            old(self).nodes@.dom().len() < usize::MAX,
        ensures
            final(self).input_shapes == old(self).input_shapes,
            final(self).unpadded_input_shapes == old(self).unpadded_input_shapes,
            exists|id: NodeId| #[trigger]
                is_least_free(old(self).g(), id) && add_result(
                    old(self).g(),
                    id,
                    node@,
                    dropped(r),
                    final(self).g(),
                ) && (r is Ok ==> r->Ok_0 == id),
    {
        let n = self.nodes.len();
        let mut id: NodeId = 0;
        while id < n && self.nodes.contains_key(&id)
            invariant
                id <= n,
                *self == *old(self),
                forall|i: NodeId| i < id ==> #[trigger] self.nodes@.contains_key(i),
            decreases n - id,
        {
            id = id + 1;
        }
        proof {
            let d = self.nodes@.dom();
            if d.contains(id) {
                // all numbers up to the number of nodes are taken: one too many
                assert(id == n);
                lemma_below((n + 1) as nat);
                assert(below((n + 1) as nat).subset_of(d)) by {
                    assert forall|i: NodeId| below((n + 1) as nat).contains(i) implies d.contains(
                        i,
                    ) by {
                        if i < id {
                            assert(self.nodes@.contains_key(i));
                        }
                    }
                }
                vstd::set_lib::lemma_len_subset(below((n + 1) as nat), d);
            }
            assert forall|i: NodeId| i < id implies #[trigger] self.g().contains_key(i) by {
                assert(self.nodes@.contains_key(i));
            }
            assert(is_least_free(old(self).g(), id));
        }
        match self.add_node_with_id(id, node) {
            Ok(_) => Ok(id),
            Err(e) => Err(e),
        }
    }

    /// Adds a node under the given number. The outputs that its inputs come from are connected to
    /// it. Fails at the first input that comes from an output that does not exist; the inputs
    /// before it stay connected.
    pub fn add_node_with_id(&mut self, node_id: NodeId, node: Node<N>) -> (r: Result<
        (),
        ModelError,
    >)
        ensures
            final(self).input_shapes == old(self).input_shapes,
            final(self).unpadded_input_shapes == old(self).unpadded_input_shapes,
            add_result(old(self).g(), node_id, node@, r, final(self).g()),
    {
        let ghost g = self.g();
        let mut i: usize = 0;
        while i < node.inputs.len()
            invariant
                g == old(self).g(),
                self.input_shapes == old(self).input_shapes,
                self.unpadded_input_shapes == old(self).unpadded_input_shapes,
                i <= node.inputs@.len(),
                forall|j: int| 0 <= j < i ==> edge_ok(g, #[trigger] node.inputs@[j]),
                self.g() == connected(g, node_id, node.inputs@, i as nat),
            decreases node.inputs@.len() - i,
        {
            let input = node.inputs[i];
            proof {
                lemma_connected(g, node_id, node.inputs@, i as nat);
                lemma_first_bad(g, node.inputs@, i as nat);
            }
            if let Some(n) = input.node {
                let ghost m = self.nodes@;
                match self.nodes.remove(&n) {
                    Some(mut source) => {
                        assert(source@ == self.g().insert(n, source@)[n]);
                        assert(graph(m)[n] == source@);
                        let count = source.outputs.len();
                        assert(wires(source.outputs@).len() == count);
                        if input.index >= count {
                            self.nodes.insert(n, source);
                            proof {
                                lemma_graph_insert(m, n, source);
                                assert(self.g() =~= graph(m));
                            }
                            let mut s = String::from_str("Specified output number ");
                            append_decimal(&mut s, input.index);
                            s.append(" for node ");
                            append_decimal(&mut s, n);
                            s.append(", which has only ");
                            append_decimal(&mut s, count);
                            s.append(" outputs");
                            return Err(ModelError { message: s });
                        }
                        source.push_edge(input.index, Edge { node: Some(node_id), index: i });
                        self.nodes.insert(n, source);
                        proof {
                            lemma_graph_insert(m, n, source);
                        }
                    },
                    None => {
                        assert(self.nodes@ =~= m);
                        let mut s = String::from_str("Node ");
                        append_decimal(&mut s, n);
                        s.append(" for input ");
                        append_decimal(&mut s, i);
                        s.append(" of new node not found in model");
                        return Err(ModelError { message: s });
                    },
                }
            }
            i = i + 1;
        }
        proof {
            lemma_first_bad(g, node.inputs@, i as nat);
            lemma_graph_insert(self.nodes@, node_id, node);
        }
        self.nodes.insert(node_id, node);
        Ok(())
    }
}

/// A result without its value.
pub open spec fn dropped<T>(r: Result<T, ModelError>) -> Result<(), ModelError> {
    match r {
        Ok(_) => Ok(()),
        Err(e) => Err(e),
    }
}

} // verus!
