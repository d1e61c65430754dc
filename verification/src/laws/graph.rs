//! How the graph of a model grows.
use crate::laws::run::law_output_node;
use crate::layers::Layer;
use crate::layers::provable::{Edge, Node, NodeId};
use crate::layers::requant::Requant;
use crate::model::{
    Model, ModelError, NodeView, add_result, connected, edge_ok, first_bad, is_least_free,
    lemma_connected,
};
use crate::model::consistency::spliced;
use crate::model::description::lists_outputs;
use crate::model::order::{Wired, comes_before, lemma_order_nodes, ordered, sources};
use crate::model::wiring::{
    as_output, edges_from, fresh_node, route_ok, route_result, routed, unrouted,
};
use crate::quantization::Element;
use vstd::prelude::*;

verus! {

/// A wire, output `w` of node `n`, has grown from `old` to `new`: behind what was there stands,
/// for each of the first `k` edges that names this output, in their order, an edge that goes to
/// `node` and bears the number of the edge.
pub open spec fn has_grown(
    old_wire: Seq<Edge>,
    new_wire: Seq<Edge>,
    node: Option<NodeId>,
    edges: Seq<Edge>,
    k: int,
    n: NodeId,
    w: int,
) -> bool {
    &&& new_wire.len() >= old_wire.len()
    &&& new_wire.take(old_wire.len() as int) == old_wire
    &&& forall|x: int|
        old_wire.len() <= x < new_wire.len() ==> {
            let e = #[trigger] new_wire[x];
            e.node == node && e.index < k && edges[e.index as int].node == Some(n)
                && edges[e.index as int].index == w
        }
    &&& forall|x: int, y: int|
        old_wire.len() <= x < y < new_wire.len() ==> (#[trigger] new_wire[x]).index < (
        #[trigger] new_wire[y]).index
    &&& forall|i: int|
        0 <= i < k && (#[trigger] edges[i]).node == Some(n) && edges[i].index == w ==> exists|
            x: int,
        |
            old_wire.len() <= x < new_wire.len() && (#[trigger] new_wire[x]).index == i
}

proof fn lemma_grows(
    old_wire: Seq<Edge>,
    mid: Seq<Edge>,
    node: Option<NodeId>,
    edges: Seq<Edge>,
    k: int,
    n: NodeId,
    w: int,
)
    requires
        has_grown(old_wire, mid, node, edges, k, n, w),
        0 <= k < edges.len() <= usize::MAX,
    ensures
        ({
            let hit = edges[k].node == Some(n) && edges[k].index == w;
            let new_wire = if hit {
                mid.push(Edge { node, index: k as usize })
            } else {
                mid
            };
            has_grown(old_wire, new_wire, node, edges, k + 1, n, w)
        }),
{
    let hit = edges[k].node == Some(n) && edges[k].index == w;
    let new_wire = if hit {
        mid.push(Edge { node, index: k as usize })
    } else {
        mid
    };
    assert(new_wire.take(old_wire.len() as int) =~= mid.take(old_wire.len() as int));
    assert forall|x: int| old_wire.len() <= x < new_wire.len() implies {
        let e = #[trigger] new_wire[x];
        e.node == node && e.index < k + 1 && edges[e.index as int].node == Some(n)
            && edges[e.index as int].index == w
    } by {
        if x < mid.len() {
            assert(mid[x] == new_wire[x]);
        }
    }
    assert forall|x: int, y: int| old_wire.len() <= x < y < new_wire.len() implies (
    #[trigger] new_wire[x]).index < (#[trigger] new_wire[y]).index by {
        assert(mid[x] == new_wire[x]);
        if y < mid.len() {
            assert(mid[y] == new_wire[y]);
        }
    }
    assert forall|i: int|
        0 <= i < k + 1 && (#[trigger] edges[i]).node == Some(n) && edges[i].index
            == w implies exists|x: int|
        old_wire.len() <= x < new_wire.len() && (#[trigger] new_wire[x]).index == i by {
        if i < k {
            let x = choose|x: int|
                old_wire.len() <= x < mid.len() && (#[trigger] mid[x]).index == i;
            assert(new_wire[x] == mid[x]);
        } else {
            assert(new_wire[mid.len() as int].index == i);
        }
    }
}

proof fn lemma_connected_grows<N>(
    g: Map<NodeId, NodeView<N>>,
    id: NodeId,
    inputs: Seq<Edge>,
    k: nat,
    n: NodeId,
    w: int,
)
    requires
        k <= inputs.len() <= usize::MAX,
        forall|i: int| 0 <= i < k ==> edge_ok(g, #[trigger] inputs[i]),
        g.contains_key(n),
        0 <= w < g[n].outputs.len(),
    ensures
        has_grown(
            g[n].outputs[w],
            connected(g, id, inputs, k)[n].outputs[w],
            Some(id),
            inputs,
            k as int,
            n,
            w,
        ),
    decreases k,
{
    if k == 0 {
        assert(g[n].outputs[w].take(g[n].outputs[w].len() as int) =~= g[n].outputs[w]);
    } else {
        let m = (k - 1) as nat;
        lemma_connected(g, id, inputs, m);
        lemma_connected_grows(g, id, inputs, m, n, w);
        let p = connected(g, id, inputs, m);
        lemma_grows(g[n].outputs[w], p[n].outputs[w], Some(id), inputs, m as int, n, w);
        assert(edge_ok(g, inputs[m as int]));
    }
}

/// Adding a node succeeds exactly where every input that names a node names an output of it. The
/// graph then has the node, in place of one with its number, besides those that it had, which keep
/// their layers and their inputs. Each output of these goes where it went, and then to the inputs
/// of the new node that name it, in their order.
pub proof fn law_node_added<N>(
    g: Map<NodeId, NodeView<N>>,
    id: NodeId,
    node: NodeView<N>,
    r: Result<(), ModelError>,
    after: Map<NodeId, NodeView<N>>,
)
    requires
        add_result(g, id, node, r, after),
        node.inputs.len() <= usize::MAX,
    ensures
        r is Ok <==> forall|i: int|
            0 <= i < node.inputs.len() ==> match (#[trigger] node.inputs[i]).node {
                Some(n) => g.contains_key(n) && node.inputs[i].index < g[n].outputs.len(),
                None => true,
            },
        r is Ok ==> {
            &&& after.dom() == g.dom().insert(id)
            &&& after[id] == node
            &&& forall|n: NodeId| #[trigger]
                g.contains_key(n) && n != id ==> {
                    &&& after[n].operation == g[n].operation
                    &&& after[n].inputs == g[n].inputs
                    &&& after[n].outputs.len() == g[n].outputs.len()
                }
            &&& forall|n: NodeId, w: int|
                g.contains_key(n) && n != id && 0 <= w < g[n].outputs.len() ==> has_grown(
                    #[trigger] g[n].outputs[w],
                    after[n].outputs[w],
                    Some(id),
                    node.inputs,
                    node.inputs.len() as int,
                    n,
                    w,
                )
        },
{
    let inputs = node.inputs;
    let bad = first_bad(g, inputs);
    lemma_first_bad_is(g, inputs);
    if bad < inputs.len() {
        assert(!edge_ok(g, inputs[bad as int]));
    } else {
        let c = connected(g, id, inputs, inputs.len());
        lemma_connected(g, id, inputs, inputs.len());
        assert forall|i: int| 0 <= i < inputs.len() implies match (#[trigger] inputs[i]).node {
            Some(n) => g.contains_key(n) && inputs[i].index < g[n].outputs.len(),
            None => true,
        } by {
            assert(edge_ok(g, inputs[i]));
        }
        assert(after.dom() =~= g.dom().insert(id));
        assert forall|n: NodeId, w: int|
            g.contains_key(n) && n != id && 0 <= w < g[n].outputs.len() implies has_grown(
            #[trigger] g[n].outputs[w],
            after[n].outputs[w],
            Some(id),
            inputs,
            inputs.len() as int,
            n,
            w,
        ) by {
            lemma_connected_grows(g, id, inputs, inputs.len(), n, w);
        }
    }
}

proof fn lemma_first_bad_is<N>(g: Map<NodeId, NodeView<N>>, inputs: Seq<Edge>)
    ensures
        first_bad(g, inputs) <= inputs.len(),
        forall|i: int| 0 <= i < first_bad(g, inputs) ==> edge_ok(g, #[trigger] inputs[i]),
        first_bad(g, inputs) < inputs.len() ==> !edge_ok(g, inputs[first_bad(g, inputs) as int]),
    decreases inputs.len(),
{
    if inputs.len() > 0 && edge_ok(g, inputs[0]) {
        let rest = inputs.skip(1);
        lemma_first_bad_is(g, rest);
        assert forall|i: int| 0 <= i < first_bad(g, inputs) implies edge_ok(
            g,
            #[trigger] inputs[i],
        ) by {
            if i > 0 {
                assert(inputs[i] == rest[i - 1]);
                assert(edge_ok(g, rest[i - 1]));
            }
        }
    }
}

proof fn lemma_routed_grows<N>(
    g: Map<NodeId, NodeView<N>>,
    edges: Seq<Edge>,
    k: nat,
    n: NodeId,
    w: int,
)
    requires
        k <= edges.len() <= usize::MAX,
        forall|i: int| 0 <= i < k ==> route_ok(g, #[trigger] edges[i]),
        g.contains_key(n),
        0 <= w < g[n].outputs.len(),
    ensures
        routed(g, edges, k).dom() == g.dom(),
        routed(g, edges, k)[n].outputs.len() == g[n].outputs.len(),
        routed(g, edges, k)[n].inputs == g[n].inputs,
        routed(g, edges, k)[n].operation == g[n].operation,
        has_grown(
            g[n].outputs[w],
            routed(g, edges, k)[n].outputs[w],
            None,
            edges,
            k as int,
            n,
            w,
        ),
    decreases k,
{
    if k == 0 {
        assert(g[n].outputs[w].take(g[n].outputs[w].len() as int) =~= g[n].outputs[w]);
    } else {
        let m = (k - 1) as nat;
        lemma_routed_grows(g, edges, m, n, w);
        let p = routed(g, edges, m);
        lemma_grows(g[n].outputs[w], p[n].outputs[w], None, edges, m as int, n, w);
        assert(route_ok(g, edges[m as int]));
        assert(routed(g, edges, k).dom() =~= g.dom());
    }
}

/// Choosing the outputs of a model succeeds exactly where each of them names an output of a node.
/// Each output of a node then goes where it went, and then to the outputs of the model that name
/// it, in their order. Nothing else changes.
pub proof fn law_outputs_routed<N>(
    g: Map<NodeId, NodeView<N>>,
    edges: Seq<Edge>,
    k: nat,
    r: Result<(), ModelError>,
    after: Map<NodeId, NodeView<N>>,
    n: NodeId,
    w: int,
)
    requires
        route_result(g, edges, k, r, after),
        edges.len() <= usize::MAX,
        g.contains_key(n),
        0 <= w < g[n].outputs.len(),
    ensures
        r is Ok <==> forall|i: int|
            0 <= i < edges.len() ==> match (#[trigger] edges[i]).node {
                Some(m) => g.contains_key(m) && edges[i].index < g[m].outputs.len(),
                None => false,
            },
        r is Ok ==> {
            &&& after.dom() == g.dom()
            &&& after[n].operation == g[n].operation
            &&& after[n].inputs == g[n].inputs
            &&& after[n].outputs.len() == g[n].outputs.len()
            &&& has_grown(
                g[n].outputs[w],
                after[n].outputs[w],
                None,
                edges,
                edges.len() as int,
                n,
                w,
            )
        },
{
    lemma_routed_grows(g, edges, k, n, w);
    if k < edges.len() {
        assert(!route_ok(g, edges[k as int]));
    } else {
        assert forall|i: int| 0 <= i < edges.len() implies match (#[trigger] edges[i]).node {
            Some(m) => g.contains_key(m) && edges[i].index < g[m].outputs.len(),
            None => false,
        } by {
            assert(route_ok(g, edges[i]));
        }
    }
}

/// A requantisation that is put behind node `from` takes its outputs and hands them on to wherever
/// they went. Every input that took an output of `from` takes the same output of the
/// requantisation; all other inputs stay, and so do the layers.
pub proof fn law_requant_spliced<N>(
    g: Map<NodeId, NodeView<N>>,
    from: NodeId,
    id: NodeId,
    requant: Requant,
    n: NodeId,
    i: int,
)
    requires
        g.contains_key(from),
        !g.contains_key(id),
        g.contains_key(n),
        0 <= i < g[n].inputs.len(),
    ensures
        ({
            let after = spliced(g, from, id, requant);
            &&& after.dom() == g.dom().insert(id)
            &&& after[id].operation == Layer::<N>::Requant(requant)
            &&& after[id].outputs == g[from].outputs
            &&& after[id].inputs.len() == g[from].outputs.len()
            &&& after[from].outputs.len() == g[from].outputs.len()
            &&& forall|w: int|
                0 <= w < g[from].outputs.len() ==> {
                    &&& #[trigger] after[id].inputs[w] == (Edge {
                        node: Some(from),
                        index: w as usize,
                    })
                    &&& after[from].outputs[w] == seq![Edge { node: Some(id), index: w as usize }]
                }
            &&& after[n].operation == g[n].operation
            &&& n != from ==> after[n].outputs == g[n].outputs
            &&& after[n].inputs.len() == g[n].inputs.len()
            &&& after[n].inputs[i].index == g[n].inputs[i].index
            &&& after[n].inputs[i].node == if g[n].inputs[i].node == Some(from) {
                Some(id)
            } else {
                g[n].inputs[i].node
            }
        }),
{
    let after = spliced(g, from, id, requant);
    assert(after.dom() =~= g.dom().insert(id));
}

/// The number that a new node gets is that of no node, and all smaller numbers are taken.
pub proof fn law_least_free<N>(g: Map<NodeId, NodeView<N>>, id: NodeId, other: NodeId)
    requires
        is_least_free(g, id),
    ensures
        !g.contains_key(id),
        !g.contains_key(other) ==> id <= other,
{
}

/// A layer that follows a node takes all its outputs, in order, and so many outputs are free.
pub proof fn law_consecutive<N>(model: Model<N>, previous: Option<NodeId>, layer: Layer<N>, i: int)
    requires
        previous matches Some(id) ==> model.nodes@.contains_key(id),
        ({
            let n = match previous {
                Some(id) => model.nodes@[id].outputs@.len(),
                None => model.input_shapes@.len(),
            };
            0 <= i < n <= usize::MAX
        }),
    ensures
        ({
            let node = fresh_node(edges_from(previous, model.width(previous)), layer);
            let n = match previous {
                Some(id) => model.nodes@[id].outputs@.len(),
                None => model.input_shapes@.len(),
            };
            &&& node.operation == layer
            &&& node.inputs.len() == n
            &&& node.inputs[i].node == previous
            &&& node.inputs[i].index == i
            &&& node.outputs.len() == n
            &&& node.outputs[i].len() == 0
        }),
{
}

/// A node whose outputs are made the outputs of the model keeps its layer and its inputs; output
/// `i` goes to output `i` of the model and nowhere else.
pub proof fn law_as_output<N>(n: NodeView<N>, i: int)
    requires
        0 <= i < n.outputs.len() <= usize::MAX,
    ensures
        as_output(n).operation == n.operation,
        as_output(n).inputs == n.inputs,
        as_output(n).outputs.len() == n.outputs.len(),
        as_output(n).outputs[i].len() == 1,
        as_output(n).outputs[i][0].node is None,
        as_output(n).outputs[i][0].index == i,
{
}

/// An order of the nodes has each node once, and each behind all nodes that its inputs come from.
pub proof fn law_ordered<T: Wired>(nodes: Map<NodeId, T>, order: Seq<NodeId>, k: int, i: int)
    requires
        ordered(sources(nodes), order),
        0 <= k < order.len(),
        0 <= i < nodes[order[k]].edges().len(),
    ensures
        order.len() == nodes.dom().len(),
        nodes.contains_key(order[k]),
        forall|j: int| 0 <= j < order.len() && #[trigger] order[j] == order[k] ==> j == k,
        nodes[order[k]].edges()[i].node matches Some(n) ==> exists|j: int|
            0 <= j < k && #[trigger] order[j] == n,
{
    let all = sources(nodes);
    assert(all.dom() =~= nodes.dom());
    order.unique_seq_to_set();
    lemma_order_nodes(nodes, order);
    assert(comes_before(order, all[order[k]][i], k));
    if let Some(n) = nodes[order[k]].edges()[i].node {
        let before = order.take(k);
        assert(before.contains(n));
        let j = choose|j: int| 0 <= j < before.len() && before[j] == n;
        assert(order[j] == n);
    }
}

/// The output nodes of a model are listed each once: those of which a wire goes to no node.
pub proof fn law_listed_outputs(model: Model<Element>, outputs: Seq<NodeId>, id: NodeId)
    requires
        lists_outputs(model.g(), outputs),
    ensures
        outputs.no_duplicates(),
        outputs.contains(id) <==> model.nodes@.contains_key(id) && exists|w: int, j: int|
            0 <= w < model.nodes@[id].outputs@.len() && 0 <= j
                < model.nodes@[id].outputs@[w].edges@.len() && (
            #[trigger] model.nodes@[id].outputs@[w].edges@[j]).node is None,
{
    if model.nodes@.contains_key(id) {
        law_output_node(model.nodes@[id]);
    }
}

/// A node is free where none of its wires goes anywhere.
pub proof fn law_unrouted(node: Node<Element>)
    ensures
        unrouted(node@) <==> forall|w: int|
            0 <= w < node.outputs@.len() ==> (#[trigger] node.outputs@[w]).edges@.len() == 0,
{
    let v = node@;
    if unrouted(v) {
        assert forall|w: int| 0 <= w < node.outputs@.len() implies (
        #[trigger] node.outputs@[w]).edges@.len() == 0 by {
            assert(v.outputs[w].len() == 0);
        }
    } else {
        let w = choose|w: int| 0 <= w < v.outputs.len() && (#[trigger] v.outputs[w]).len() != 0;
        assert(node.outputs@[w].edges@.len() != 0);
    }
}

} // verus!
