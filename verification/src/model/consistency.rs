//! Graphs in which both ends of every connection know of each other.
use crate::layers::provable::{Edge, NodeId};
use crate::layers::requant::Requant;
use crate::model::{ModelError, NodeView, connected, edge_ok, law_connected, lemma_connected};
use crate::model::insertion::{Hop, hop_ok, hops, insert_result, rewired, wire_hops, with_requant};
use crate::model::wiring::{lemma_routed, route_ok, routed, unrouted};
use vstd::prelude::*;

verus! {

/// The output that input `i` of node `n` takes knows of the input.
pub open spec fn input_joined<N>(g: Map<NodeId, NodeView<N>>, n: NodeId, i: int) -> bool {
    let e = g[n].inputs[i];
    e.node matches Some(m) ==> g.contains_key(m) && e.index < g[m].outputs.len()
        && g[m].outputs[e.index as int].contains(Edge { node: Some(n), index: i as usize })
}

/// The input that output `w` of node `n` goes to takes this output.
pub open spec fn output_joined<N>(g: Map<NodeId, NodeView<N>>, n: NodeId, w: int, j: int) -> bool {
    let e = g[n].outputs[w][j];
    e.node matches Some(c) ==> g.contains_key(c) && e.index < g[c].inputs.len()
        && g[c].inputs[e.index as int] == Edge { node: Some(n), index: w as usize }
}

/// Both ends of every connection know of each other, and no output goes to the same place twice.
pub open spec fn consistent<N>(g: Map<NodeId, NodeView<N>>) -> bool {
    &&& forall|n: NodeId| #[trigger]
        g.contains_key(n) ==> g[n].inputs.len() <= usize::MAX && g[n].outputs.len() <= usize::MAX
    &&& forall|n: NodeId, i: int|
        g.contains_key(n) && 0 <= i < g[n].inputs.len() ==> #[trigger] input_joined(g, n, i)
    &&& forall|n: NodeId, w: int, j: int|
        g.contains_key(n) && 0 <= w < g[n].outputs.len() && 0 <= j < g[n].outputs[w].len()
            ==> #[trigger] output_joined(g, n, w, j)
    &&& forall|n: NodeId, w: int|
        g.contains_key(n) && 0 <= w < g[n].outputs.len()
            ==> (#[trigger] g[n].outputs[w]).no_duplicates()
}

// ---------------------------------------------------------------------------------------
// Adding a node
// ---------------------------------------------------------------------------------------

/// What an output goes to after a node was connected: what it went to before, and then the inputs
/// of the node that take it, in order.
proof fn lemma_connected_wire<N>(
    g: Map<NodeId, NodeView<N>>,
    id: NodeId,
    inputs: Seq<Edge>,
    k: nat,
    n: NodeId,
    w: int,
)
    requires
        k <= inputs.len() <= usize::MAX,
        forall|i: int| 0 <= i < k ==> edge_ok(g, #[trigger] inputs[i]),
        g.contains_key(n),
        0 <= w < g[n].outputs.len() <= usize::MAX,
    ensures
        ({
            let before = g[n].outputs[w];
            let after = connected(g, id, inputs, k)[n].outputs[w];
            &&& before.len() <= after.len()
            &&& forall|j: int| 0 <= j < before.len() ==> #[trigger] after[j] == before[j]
            &&& forall|j: int|
                before.len() <= j < after.len() ==> (#[trigger] after[j]).node == Some(id)
                    && after[j].index < k && inputs[after[j].index as int] == (Edge {
                    node: Some(n),
                    index: w as usize,
                })
            &&& forall|a: int, b: int|
                before.len() <= a < b < after.len() ==> (#[trigger] after[a]).index < (
                #[trigger] after[b]).index
        }),
    decreases k,
{
    if k > 0 {
        lemma_connected_wire(g, id, inputs, (k - 1) as nat, n, w);
        lemma_connected(g, id, inputs, (k - 1) as nat);
        assert(edge_ok(g, inputs[k - 1]));
    }
}

/// Adding a node whose outputs go nowhere, under a number that is free and with inputs that exist,
/// keeps a graph consistent.
pub proof fn law_add_consistent<N>(g: Map<NodeId, NodeView<N>>, id: NodeId, node: NodeView<N>)
    requires
        consistent(g),
        !g.contains_key(id),
        node.inputs.len() <= usize::MAX,
        node.outputs.len() <= usize::MAX,
        unrouted(node),
        forall|i: int| 0 <= i < node.inputs.len() ==> edge_ok(g, #[trigger] node.inputs[i]),
    ensures
        consistent(connected(g, id, node.inputs, node.inputs.len()).insert(id, node)),
{
    let c = connected(g, id, node.inputs, node.inputs.len());
    let after = c.insert(id, node);
    lemma_connected(g, id, node.inputs, node.inputs.len());
    assert forall|n: NodeId, i: int|
        after.contains_key(n) && 0 <= i < after[n].inputs.len() implies #[trigger] input_joined(
        after,
        n,
        i,
    ) by {
        let e = after[n].inputs[i];
        if e.node is Some {
            let m = e.node->0;
            if n == id {
                assert(edge_ok(g, node.inputs[i]));
                law_connected(g, id, node.inputs, i);
            } else {
                assert(g.contains_key(n));
                assert(input_joined(g, n, i));
                let want = Edge { node: Some(n), index: i as usize };
                let before = g[m].outputs[e.index as int];
                let j = choose|j: int| 0 <= j < before.len() && before[j] == want;
                assert(g.contains_key(m));
                lemma_connected_wire(
                    g,
                    id,
                    node.inputs,
                    node.inputs.len(),
                    m,
                    e.index as int,
                );
                assert(c[m].outputs[e.index as int][j] == want);
            }
        }
    }
    assert forall|n: NodeId, w: int, j: int|
        after.contains_key(n) && 0 <= w < after[n].outputs.len() && 0 <= j
            < after[n].outputs[w].len() implies #[trigger] output_joined(after, n, w, j) by {
        if n == id {
            assert(node.outputs[w].len() == 0);
        } else {
            assert(g.contains_key(n));
            lemma_connected_wire(g, id, node.inputs, node.inputs.len(), n, w);
            if j < g[n].outputs[w].len() {
                assert(output_joined(g, n, w, j));
            }
        }
    }
    assert forall|n: NodeId, w: int|
        after.contains_key(n) && 0 <= w < after[n].outputs.len() implies (
    #[trigger] after[n].outputs[w]).no_duplicates() by {
        if n == id {
            assert(node.outputs[w].len() == 0);
        } else {
            assert(g.contains_key(n));
            lemma_connected_wire(g, id, node.inputs, node.inputs.len(), n, w);
            let before = g[n].outputs[w];
            let s = c[n].outputs[w];
            assert(before.no_duplicates());
            assert forall|a: int, b: int| 0 <= a < b < s.len() implies s[a] != s[b] by {
                if a < before.len() && b >= before.len() {
                    assert(output_joined(g, n, w, a));
                }
            }
        }
    }
    assert forall|n: NodeId| #[trigger] after.contains_key(n) implies after[n].inputs.len()
        <= usize::MAX && after[n].outputs.len() <= usize::MAX by {
        if n != id {
            assert(g.contains_key(n));
        }
    }
}

// ---------------------------------------------------------------------------------------
// Inserting a requantisation
// ---------------------------------------------------------------------------------------

/// An input that took an output of `from` takes the same output of `id`.
pub open spec fn redirected(e: Edge, from: NodeId, id: NodeId) -> Edge {
    if e.node == Some(from) {
        Edge { node: Some(id), index: e.index }
    } else {
        e
    }
}

/// The graph with the requantisation `id` between node `from` and whatever took its outputs.
pub open spec fn spliced<N>(
    g: Map<NodeId, NodeView<N>>,
    from: NodeId,
    id: NodeId,
    requant: Requant,
) -> Map<NodeId, NodeView<N>> {
    let base = with_requant(g, from, id, requant);
    base.map_entries(
        |n: NodeId, v: NodeView<N>|
            if n == id {
                v
            } else {
                NodeView { inputs: v.inputs.map_values(|e: Edge| redirected(e, from, id)), ..v }
            },
    )
}

proof fn lemma_wire_hops(edges: Seq<Edge>, w: usize)
    requires
        edges.no_duplicates(),
    ensures
        forall|j: int|
            0 <= j < wire_hops(edges, w).len() ==> {
                let h = #[trigger] wire_hops(edges, w)[j];
                h.0 == w && h.1.node is Some && edges.contains(h.1)
            },
        forall|e: Edge|
            edges.contains(e) && e.node is Some ==> #[trigger] wire_hops(edges, w).contains((w, e)),
        wire_hops(edges, w).no_duplicates(),
    decreases edges.len(),
{
    if edges.len() > 0 {
        let front = edges.drop_last();
        let p = wire_hops(front, w);
        let s = wire_hops(edges, w);
        assert(front.no_duplicates());
        lemma_wire_hops(front, w);
        assert forall|j: int| 0 <= j < s.len() implies edges.contains((#[trigger] s[j]).1) && s[j].0
            == w && s[j].1.node is Some by {
            if j < p.len() {
                assert(s[j] == p[j]);
                let q = choose|q: int| 0 <= q < front.len() && front[q] == p[j].1;
                assert(edges[q] == p[j].1);
            } else {
                assert(edges[edges.len() - 1] == s[j].1);
            }
        }
        assert forall|e: Edge| edges.contains(e) && e.node is Some implies #[trigger] s.contains(
            (w, e),
        ) by {
            let q = choose|q: int| 0 <= q < edges.len() && edges[q] == e;
            if q < front.len() {
                assert(front[q] == e);
                assert(p.contains((w, e)));
                let x = choose|x: int| 0 <= x < p.len() && p[x] == (w, e);
                assert(s[x] == (w, e));
            } else {
                assert(s[s.len() - 1] == (w, e));
            }
        }
        assert forall|a: int, b: int| 0 <= a < b < s.len() implies s[a] != s[b] by {
            if b == p.len() {
                assert(front.contains(p[a].1));
                let q = choose|q: int| 0 <= q < front.len() && front[q] == p[a].1;
                assert(edges[q] != edges[edges.len() - 1]);
            }
        }
    }
}

/// The hops are the inputs that the outputs go to, each once.
proof fn lemma_hops(outputs: Seq<Seq<Edge>>)
    requires
        outputs.len() <= usize::MAX,
        forall|w: int| 0 <= w < outputs.len() ==> (#[trigger] outputs[w]).no_duplicates(),
    ensures
        forall|j: int|
            0 <= j < hops(outputs).len() ==> {
                let h = #[trigger] hops(outputs)[j];
                h.0 < outputs.len() && h.1.node is Some && outputs[h.0 as int].contains(h.1)
            },
        forall|w: usize, e: Edge|
            w < outputs.len() && outputs[w as int].contains(e) && e.node is Some
                ==> #[trigger] hops(outputs).contains((w, e)),
        hops(outputs).no_duplicates(),
    decreases outputs.len(),
{
    if outputs.len() > 0 {
        let front = outputs.drop_last();
        let last = (outputs.len() - 1) as usize;
        let p = hops(front);
        let t = wire_hops(outputs.last(), last);
        let s = hops(outputs);
        assert forall|w: int| 0 <= w < front.len() implies (
        #[trigger] front[w]).no_duplicates() by {
            assert(outputs[w].no_duplicates());
        }
        lemma_hops(front);
        assert(outputs[last as int].no_duplicates());
        lemma_wire_hops(outputs.last(), last);
        assert forall|j: int| 0 <= j < s.len() implies (#[trigger] s[j]).0 < outputs.len()
            && s[j].1.node is Some && outputs[s[j].0 as int].contains(s[j].1) by {
            if j < p.len() {
                assert(s[j] == p[j]);
            } else {
                assert(s[j] == t[j - p.len()]);
            }
        }
        assert forall|w: usize, e: Edge|
            w < outputs.len() && outputs[w as int].contains(e)
                && e.node is Some implies #[trigger] s.contains((w, e)) by {
            if w < last {
                assert(p.contains((w, e)));
                let x = choose|x: int| 0 <= x < p.len() && p[x] == (w, e);
                assert(s[x] == (w, e));
            } else {
                assert(t.contains((w, e)));
                let x = choose|x: int| 0 <= x < t.len() && t[x] == (w, e);
                assert(s[p.len() + x] == (w, e));
            }
        }
        assert forall|a: int, b: int| 0 <= a < b < s.len() implies s[a] != s[b] by {
            if a < p.len() && b >= p.len() {
                assert(s[a] == p[a]);
                assert(p[a].0 < front.len());
                assert(s[b] == t[b - p.len()]);
                assert(t[b - p.len()].0 == last);
            } else if a >= p.len() {
                assert(s[a] == t[a - p.len()]);
                assert(s[b] == t[b - p.len()]);
            }
        }
    }
}

/// The inputs are different, and exist in the graph.
spec fn hops_fit<N>(base: Map<NodeId, NodeView<N>>, list: Seq<Hop>) -> bool {
    &&& forall|a: int, b: int| 0 <= a < b < list.len() ==> (#[trigger] list[a]).1 != (
    #[trigger] list[b]).1
    &&& forall|j: int|
        0 <= j < list.len() ==> (#[trigger] list[j]).1.node is Some && base.contains_key(
            list[j].1.node->0,
        ) && list[j].1.index < base[list[j].1.node->0].inputs.len()
}

/// The input is none of the first `k`.
spec fn not_listed(list: Seq<Hop>, k: int, n: NodeId, i: int) -> bool {
    forall|j: int| 0 <= j < k ==> (#[trigger] list[j]).1 != (Edge { node: Some(n), index: i as usize })
}

/// Rewiring changes the listed inputs and nothing else.
proof fn lemma_rewired<N>(base: Map<NodeId, NodeView<N>>, to: NodeId, list: Seq<Hop>, k: nat)
    requires
        k <= list.len(),
        hops_fit(base, list),
        forall|n: NodeId| #[trigger] base.contains_key(n) ==> base[n].inputs.len() <= usize::MAX,
    ensures
        rewired(base, to, list, k).dom() == base.dom(),
        forall|n: NodeId|
            base.contains_key(n) ==> {
                let v = #[trigger] rewired(base, to, list, k)[n];
                v.outputs == base[n].outputs && v.operation == base[n].operation && v.inputs.len()
                    == base[n].inputs.len()
            },
        forall|j: int|
            0 <= j < k ==> rewired(base, to, list, k)[(
            #[trigger] list[j]).1.node->0].inputs[list[j].1.index as int] == (Edge {
                node: Some(to),
                index: list[j].0,
            }),
        forall|n: NodeId, i: int|
            base.contains_key(n) && 0 <= i < base[n].inputs.len() && not_listed(list, k as int, n, i)
                ==> #[trigger] rewired(base, to, list, k)[n].inputs[i] == base[n].inputs[i],
    decreases k,
{
    if k > 0 {
        let p = rewired(base, to, list, (k - 1) as nat);
        let r = rewired(base, to, list, k);
        lemma_rewired(base, to, list, (k - 1) as nat);
        let h = list[k - 1];
        let c = h.1.node->0;
        assert(base.contains_key(c));
        assert(r.dom() =~= base.dom());
        assert forall|j: int| 0 <= j < k implies r[(
        #[trigger] list[j]).1.node->0].inputs[list[j].1.index as int] == (Edge {
            node: Some(to),
            index: list[j].0,
        }) by {
            if j < k - 1 {
                assert(list[j].1 != list[k - 1].1);
                assert(p[list[j].1.node->0].inputs[list[j].1.index as int] == (Edge {
                    node: Some(to),
                    index: list[j].0,
                }));
            }
        }
        assert forall|n: NodeId, i: int|
            base.contains_key(n) && 0 <= i < base[n].inputs.len() && not_listed(
                list,
                k as int,
                n,
                i,
            ) implies #[trigger] r[n].inputs[i] == base[n].inputs[i] by {
            assert(not_listed(list, k - 1, n, i));
            assert(list[k - 1].1 != (Edge { node: Some(n), index: i as usize }));
            assert(p[n].inputs[i] == base[n].inputs[i]);
            if n == c {
                assert(i != h.1.index);
            }
        }
    }
}

/// In a consistent graph a requantisation can be inserted after any node. It stands between the node
/// and whatever took its outputs, and the graph stays consistent.
pub proof fn law_requant_inserted<N>(
    g: Map<NodeId, NodeView<N>>,
    from: NodeId,
    id: NodeId,
    requant: Requant,
    k: nat,
    r: Result<NodeId, ModelError>,
    after: Map<NodeId, NodeView<N>>,
)
    requires
        consistent(g),
        g.contains_key(from),
        insert_result(g, from, id, requant, k, r, after),
    ensures
        r == Ok::<NodeId, ModelError>(id),
        after == spliced(g, from, id, requant),
        consistent(after),
{
    let list = hops(g[from].outputs);
    let base = with_requant(g, from, id, requant);
    let outs = g[from].outputs;
    assert(outs.len() <= usize::MAX);
    lemma_hops(outs);
    assert forall|j: int| 0 <= j < list.len() implies (#[trigger] list[j]).1.node is Some
        && g.contains_key(list[j].1.node->0) && list[j].1.index < g[list[j].1.node->0].inputs.len()
        && g[list[j].1.node->0].inputs[list[j].1.index as int] == (Edge {
        node: Some(from),
        index: list[j].0,
    }) by {
        let h = list[j];
        let wire = outs[h.0 as int];
        let x = choose|x: int| 0 <= x < wire.len() && wire[x] == h.1;
        assert(output_joined(g, from, h.0 as int, x));
    }
    assert(hops_fit(base, list)) by {
        assert forall|a: int, b: int| 0 <= a < b < list.len() implies (#[trigger] list[a]).1 != (
        #[trigger] list[b]).1 by {
            assert(list[a] != list[b]);
        }
    }
    assert forall|n: NodeId| #[trigger] base.contains_key(n) implies base[n].inputs.len()
        <= usize::MAX by {
        if n != id {
            assert(g.contains_key(n));
        }
    }
    // no input is listed twice, so each still takes the output of the node when its turn comes
    assert forall|j: int| 0 <= j < list.len() implies hop_ok(
        rewired(base, id, list, j as nat),
        from,
        #[trigger] list[j],
    ) by {
        lemma_rewired(base, id, list, j as nat);
        let c = list[j].1.node->0;
        let i = list[j].1.index as int;
        assert(g.contains_key(c));
        assert(base.contains_key(c));
        assert(not_listed(list, j, c, i)) by {
            assert forall|q: int| 0 <= q < j implies (#[trigger] list[q]).1 != (Edge {
                node: Some(c),
                index: i as usize,
            }) by {
                assert(list[q].1 != list[j].1);
            }
        }
        assert(rewired(base, id, list, j as nat)[c].inputs[i] == base[c].inputs[i]);
    }
    if k < list.len() {
        assert(hop_ok(rewired(base, id, list, k), from, list[k as int]));
    }
    lemma_rewired(base, id, list, k);
    let want = spliced(g, from, id, requant);
    assert(after.dom() =~= want.dom());
    assert forall|n: NodeId| want.contains_key(n) implies after[n] == #[trigger] want[n] by {
        assert(base.contains_key(n));
        assert forall|i: int| 0 <= i < base[n].inputs.len() implies after[n].inputs[i]
            == want[n].inputs[i] by {
            if n == id {
                assert(not_listed(list, k as int, n, i)) by {
                    assert forall|j: int| 0 <= j < k implies (#[trigger] list[j]).1 != (Edge {
                        node: Some(n),
                        index: i as usize,
                    }) by {
                        assert(g.contains_key(list[j].1.node->0));
                    }
                }
                assert(after[n].inputs[i] == base[n].inputs[i]);
            } else {
                assert(g.contains_key(n));
                assert(input_joined(g, n, i));
                let e = g[n].inputs[i];
                let me = Edge { node: Some(n), index: i as usize };
                if e.node == Some(from) {
                    assert(outs[e.index as int].contains(me));
                    assert(list.contains((e.index, me)));
                    let j = choose|j: int| 0 <= j < list.len() && list[j] == (e.index, me);
                    assert(after[list[j].1.node->0].inputs[list[j].1.index as int] == (Edge {
                        node: Some(id),
                        index: list[j].0,
                    }));
                } else {
                    assert(not_listed(list, k as int, n, i)) by {
                        assert forall|j: int| 0 <= j < k implies (#[trigger] list[j]).1 != me by {
                            if list[j].1 == me {
                                assert(g[n].inputs[i] == (Edge {
                                    node: Some(from),
                                    index: list[j].0,
                                }));
                            }
                        }
                    }
                    assert(after[n].inputs[i] == base[n].inputs[i]);
                }
            }
        }
        assert(after[n].inputs =~= want[n].inputs);
        assert(after[n] =~= want[n]);
    }
    assert(after =~= want);
    lemma_spliced_consistent(g, from, id, requant);
}

proof fn lemma_spliced_consistent<N>(
    g: Map<NodeId, NodeView<N>>,
    from: NodeId,
    id: NodeId,
    requant: Requant,
)
    requires
        consistent(g),
        g.contains_key(from),
        !g.contains_key(id),
    ensures
        consistent(spliced(g, from, id, requant)),
{
    let s = spliced(g, from, id, requant);
    let base = with_requant(g, from, id, requant);
    assert(g[from].outputs.len() <= usize::MAX);
    assert forall|n: NodeId| #[trigger] s.contains_key(n) implies s[n].inputs.len() <= usize::MAX
        && s[n].outputs.len() <= usize::MAX by {
        assert(base.contains_key(n));
        if n != id {
            assert(g.contains_key(n));
        }
    }
    assert forall|n: NodeId, i: int|
        s.contains_key(n) && 0 <= i < s[n].inputs.len() implies #[trigger] input_joined(
        s,
        n,
        i,
    ) by {
        assert(base.contains_key(n));
        let me = Edge { node: Some(n), index: i as usize };
        if n == id {
            let wire = s[from].outputs[i];
            assert(s.contains_key(from));
            assert(wire == seq![me]);
            assert(wire[0] == me);
        } else {
            assert(g.contains_key(n));
            assert(input_joined(g, n, i));
            let e = g[n].inputs[i];
            if e.node is Some {
                let m = e.node->0;
                assert(s.contains_key(m) && s.contains_key(id));
                if m == from {
                    assert(s[id].outputs == g[from].outputs);
                } else {
                    assert(m != id);
                    assert(s[m].outputs == g[m].outputs);
                }
            }
        }
    }
    assert forall|n: NodeId, w: int, j: int|
        s.contains_key(n) && 0 <= w < s[n].outputs.len() && 0 <= j
            < s[n].outputs[w].len() implies #[trigger] output_joined(s, n, w, j) by {
        assert(base.contains_key(n));
        if n == from {
            assert(s[n].outputs[w] == seq![Edge { node: Some(id), index: w as usize }]);
            assert(s.contains_key(id));
        } else {
            let o = if n == id {
                from
            } else {
                n
            };
            assert(g.contains_key(o));
            assert(s[n].outputs == g[o].outputs);
            assert(output_joined(g, o, w, j));
            let e = g[o].outputs[w][j];
            if e.node is Some {
                let c = e.node->0;
                assert(g.contains_key(c) && c != id);
                assert(s.contains_key(c));
                assert(s[c].inputs[e.index as int] == redirected(
                    g[c].inputs[e.index as int],
                    from,
                    id,
                ));
            }
        }
    }
    assert forall|n: NodeId, w: int|
        s.contains_key(n) && 0 <= w < s[n].outputs.len() implies (
    #[trigger] s[n].outputs[w]).no_duplicates() by {
        assert(base.contains_key(n));
        if n == from {
            assert(s[n].outputs[w] == seq![Edge { node: Some(id), index: w as usize }]);
        } else if n == id {
            assert(s[n].outputs[w] == g[from].outputs[w]);
        } else {
            assert(g.contains_key(n));
            assert(s[n].outputs[w] == g[n].outputs[w]);
        }
    }
}

// ---------------------------------------------------------------------------------------
// Choosing the outputs of the model
// ---------------------------------------------------------------------------------------

/// No output of a node is an output of the model yet.
pub open spec fn no_model_outputs<N>(g: Map<NodeId, NodeView<N>>) -> bool {
    forall|n: NodeId, w: int, j: int|
        g.contains_key(n) && 0 <= w < g[n].outputs.len() && 0 <= j < g[n].outputs[w].len() ==> (
        #[trigger] g[n].outputs[w][j]).node is Some
}

/// What an output goes to after outputs of the model were chosen: what it went to before, and then
/// the outputs of the model, in order.
proof fn lemma_routed_wire<N>(
    g: Map<NodeId, NodeView<N>>,
    edges: Seq<Edge>,
    k: nat,
    n: NodeId,
    w: int,
)
    requires
        k <= edges.len() <= usize::MAX,
        forall|i: int| 0 <= i < k ==> route_ok(g, #[trigger] edges[i]),
        g.contains_key(n),
        0 <= w < g[n].outputs.len() <= usize::MAX,
    ensures
        ({
            let before = g[n].outputs[w];
            let after = routed(g, edges, k)[n].outputs[w];
            &&& before.len() <= after.len()
            &&& forall|j: int| 0 <= j < before.len() ==> #[trigger] after[j] == before[j]
            &&& forall|j: int|
                before.len() <= j < after.len() ==> (#[trigger] after[j]).node is None
                    && after[j].index < k && edges[after[j].index as int] == (Edge {
                    node: Some(n),
                    index: w as usize,
                })
            &&& forall|a: int, b: int|
                before.len() <= a < b < after.len() ==> (#[trigger] after[a]).index < (
                #[trigger] after[b]).index
        }),
    decreases k,
{
    if k > 0 {
        lemma_routed_wire(g, edges, (k - 1) as nat, n, w);
        lemma_routed(g, edges, (k - 1) as nat);
        assert(route_ok(g, edges[k - 1]));
    }
}

/// Choosing outputs of the model in a graph that has none keeps it consistent.
pub proof fn law_route_consistent<N>(g: Map<NodeId, NodeView<N>>, edges: Seq<Edge>)
    requires
        consistent(g),
        no_model_outputs(g),
        edges.len() <= usize::MAX,
        forall|i: int| 0 <= i < edges.len() ==> route_ok(g, #[trigger] edges[i]),
    ensures
        consistent(routed(g, edges, edges.len())),
{
    let after = routed(g, edges, edges.len());
    lemma_routed(g, edges, edges.len());
    assert forall|n: NodeId| #[trigger] after.contains_key(n) implies after[n].inputs.len()
        <= usize::MAX && after[n].outputs.len() <= usize::MAX by {
        assert(g.contains_key(n));
    }
    assert forall|n: NodeId, i: int|
        after.contains_key(n) && 0 <= i < after[n].inputs.len() implies #[trigger] input_joined(
        after,
        n,
        i,
    ) by {
        assert(g.contains_key(n));
        assert(input_joined(g, n, i));
        let e = after[n].inputs[i];
        if e.node is Some {
            let m = e.node->0;
            let want = Edge { node: Some(n), index: i as usize };
            let before = g[m].outputs[e.index as int];
            let j = choose|j: int| 0 <= j < before.len() && before[j] == want;
            assert(g.contains_key(m));
            lemma_routed_wire(g, edges, edges.len(), m, e.index as int);
            assert(after[m].outputs[e.index as int][j] == want);
        }
    }
    assert forall|n: NodeId, w: int, j: int|
        after.contains_key(n) && 0 <= w < after[n].outputs.len() && 0 <= j
            < after[n].outputs[w].len() implies #[trigger] output_joined(after, n, w, j) by {
        assert(g.contains_key(n));
        lemma_routed_wire(g, edges, edges.len(), n, w);
        if j < g[n].outputs[w].len() {
            assert(output_joined(g, n, w, j));
        }
    }
    assert forall|n: NodeId, w: int|
        after.contains_key(n) && 0 <= w < after[n].outputs.len() implies (
    #[trigger] after[n].outputs[w]).no_duplicates() by {
        assert(g.contains_key(n));
        lemma_routed_wire(g, edges, edges.len(), n, w);
        let before = g[n].outputs[w];
        let s = after[n].outputs[w];
        assert(before.no_duplicates());
        assert forall|a: int, b: int| 0 <= a < b < s.len() implies s[a] != s[b] by {
            if a < before.len() && b >= before.len() {
                assert(g[n].outputs[w][a].node is Some);
            }
        }
    }
}

} // verus!
