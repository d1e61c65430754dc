//! Orders in which the nodes of a graph can be gone through.
use crate::layers::provable::{Edge, Node, NodeCtx, NodeId};
use crate::model::keys_of;
use std::collections::{HashMap, HashSet};
use vstd::prelude::*;

verus! {

/// Something with inputs that come from nodes.
pub trait Wired {
    spec fn edges(&self) -> Seq<Edge>;

    /// Where the inputs come from.
    fn inputs(&self) -> (r: &[Edge])
        ensures
            r@ == self.edges(),
    ;
}

impl<N> Wired for Node<N> {
    open spec fn edges(&self) -> Seq<Edge> {
        self.inputs@
    }

    fn inputs(&self) -> (r: &[Edge]) {
        self.inputs.as_slice()
    }
}

impl Wired for NodeCtx {
    open spec fn edges(&self) -> Seq<Edge> {
        self.inputs@
    }

    fn inputs(&self) -> (r: &[Edge]) {
        self.inputs.as_slice()
    }
}

/// What the inputs of all nodes come from.
pub open spec fn sources<T: Wired>(nodes: Map<NodeId, T>) -> Map<NodeId, Seq<Edge>> {
    nodes.map_values(|n: T| n.edges())
}

/// The input comes from the model, or from one of the first `k` nodes.
pub open spec fn comes_before(order: Seq<NodeId>, e: Edge, k: int) -> bool {
    e.node matches Some(m) ==> order.take(k).contains(m)
}

/// Every node stands in the order once, behind all nodes that its inputs come from.
pub open spec fn ordered(sources: Map<NodeId, Seq<Edge>>, order: Seq<NodeId>) -> bool {
    &&& order.no_duplicates()
    &&& order.to_set() == sources.dom()
    &&& forall|k: int, i: int|
        0 <= k < order.len() && 0 <= i < sources[order[k]].len() ==> comes_before(
            order,
            #[trigger] sources[order[k]][i],
            k,
        )
}

/// All inputs come from the model or from nodes in `placed`.
pub open spec fn ready(edges: Seq<Edge>, placed: Set<NodeId>) -> bool {
    forall|i: int| 0 <= i < edges.len() ==> source_in(#[trigger] edges[i], placed)
}

/// The input comes from the model or from a node in `placed`.
pub open spec fn source_in(e: Edge, placed: Set<NodeId>) -> bool {
    e.node matches Some(m) ==> placed.contains(m)
}

fn is_ready(edges: &[Edge], placed: &HashSet<NodeId>) -> (r: bool)
    ensures
        r == ready(edges@, placed@),
{
    let mut i: usize = 0;
    while i < edges.len()
        invariant
            i <= edges@.len(),
            forall|j: int| 0 <= j < i ==> source_in(#[trigger] edges@[j], placed@),
        decreases edges@.len() - i,
    {
        if let Some(m) = edges[i].node {
            if !placed.contains(&m) {
                assert(!source_in(edges@[i as int], placed@));
                return false;
            }
        }
        i = i + 1;
    }
    true
}

/// Where some nodes are not placed and none of them is ready, there is no order.
proof fn lemma_no_order(sources: Map<NodeId, Seq<Edge>>, placed: Set<NodeId>, order: Seq<NodeId>)
    requires
        exists|n: NodeId| sources.contains_key(n) && !placed.contains(n),
        forall|n: NodeId| #[trigger]
            sources.contains_key(n) && !placed.contains(n) ==> !ready(sources[n], placed),
    ensures
        !ordered(sources, order),
{
    if ordered(sources, order) {
        let n = choose|n: NodeId| sources.contains_key(n) && !placed.contains(n);
        assert(order.to_set().contains(n));
        let k = choose|k: int| 0 <= k < order.len() && order[k] == n;
        lemma_first_missing(order, placed, k);
        let f = choose|f: int|
            0 <= f < order.len() && !placed.contains(#[trigger] order[f]) && forall|j: int|
                0 <= j < f ==> placed.contains(#[trigger] order[j]);
        let m = order[f];
        assert(order.to_set().contains(m));
        assert(sources.contains_key(m));
        assert forall|i: int| 0 <= i < sources[m].len() implies source_in(
            #[trigger] sources[m][i],
            placed,
        ) by {
            assert(comes_before(order, sources[order[f]][i], f));
            if let Some(s) = sources[m][i].node {
                let j = choose|j: int| 0 <= j < f && order.take(f)[j] == s;
                assert(placed.contains(order[j]));
            }
        }
    }
}

/// Among places of nodes that are not in `placed` there is a first.
proof fn lemma_first_missing(order: Seq<NodeId>, placed: Set<NodeId>, k: int)
    requires
        0 <= k < order.len(),
        !placed.contains(order[k]),
    ensures
        exists|f: int|
            0 <= f < order.len() && !placed.contains(#[trigger] order[f]) && forall|j: int|
                0 <= j < f ==> placed.contains(#[trigger] order[j]),
    decreases k,
{
    if exists|j: int| 0 <= j < k && !placed.contains(#[trigger] order[j]) {
        let j = choose|j: int| 0 <= j < k && !placed.contains(#[trigger] order[j]);
        lemma_first_missing(order, placed, j);
    } else {
        assert(!placed.contains(order[k]));
    }
}

/// An order of the nodes in which each stands behind all that its inputs come from. There is none
/// exactly where inputs come from nodes that do not exist or go round in a circle.
pub fn forward_order<T: Wired>(nodes: &HashMap<NodeId, T>) -> (r: Option<Vec<NodeId>>)
    ensures
        r matches Some(order) ==> ordered(sources(nodes@), order@),
        r is None ==> forall|order: Seq<NodeId>| !#[trigger] ordered(sources(nodes@), order),
{
    let ids = keys_of(nodes);
    let ghost all = sources(nodes@);
    let mut order: Vec<NodeId> = Vec::new();
    let mut placed: HashSet<NodeId> = HashSet::new();
    let n = ids.len();
    proof {
        assert(order@.to_set() =~= placed@);
        assert(all.dom() =~= nodes@.dom());
    }
    while order.len() < n
        invariant
            all == sources(nodes@),
            all.dom() == nodes@.dom(),
            n == ids@.len(),
            ids@.no_duplicates(),
            ids@.to_set() == nodes@.dom(),
            order.len() <= n,
            order@.no_duplicates(),
            order@.to_set() == placed@,
            placed@.subset_of(all.dom()),
            forall|k: int, i: int|
                0 <= k < order@.len() && 0 <= i < all[order@[k]].len() ==> comes_before(
                    order@,
                    #[trigger] all[order@[k]][i],
                    k,
                ),
        decreases n - order.len(),
    {
        let mut found: Option<NodeId> = None;
        let mut j: usize = 0;
        while j < n && found.is_none()
            invariant
                all == sources(nodes@),
                n == ids@.len(),
                ids@.to_set() == nodes@.dom(),
                j <= n,
                found matches Some(f) ==> all.contains_key(f) && !placed@.contains(f) && ready(
                    all[f],
                    placed@,
                ),
                found is None ==> forall|q: int|
                    0 <= q < j ==> !placed@.contains(#[trigger] ids@[q]) ==> !ready(
                        all[ids@[q]],
                        placed@,
                    ),
            decreases n - j,
        {
            let id = ids[j];
            assert(ids@.to_set().contains(ids@[j as int]));
            if !placed.contains(&id) {
                if let Some(node) = nodes.get(&id) {
                    assert(all[id] == node.edges());
                    if is_ready(node.inputs(), &placed) {
                        found = Some(id);
                    }
                }
            }
            j = j + 1;
        }
        match found {
            None => {
                proof {
                    ids@.unique_seq_to_set();
                    order@.unique_seq_to_set();
                    if !exists|x: NodeId| all.contains_key(x) && !placed@.contains(x) {
                        assert(placed@ =~= all.dom());
                    }
                    assert(exists|x: NodeId| all.contains_key(x) && !placed@.contains(x));
                    assert forall|x: NodeId| #[trigger]
                        all.contains_key(x) && !placed@.contains(x) implies !ready(
                        all[x],
                        placed@,
                    ) by {
                        assert(ids@.to_set().contains(x));
                        let q = choose|q: int| 0 <= q < ids@.len() && ids@[q] == x;
                        assert(!placed@.contains(ids@[q]));
                    }
                    assert forall|o: Seq<NodeId>| !#[trigger] ordered(all, o) by {
                        lemma_no_order(all, placed@, o);
                    }
                }
                return None;
            },
            Some(id) => {
                let ghost before = order@;
                let ghost was = placed@;
                order.push(id);
                placed.insert(id);
                proof {
                    assert(!before.contains(id)) by {
                        if before.contains(id) {
                            assert(before.to_set().contains(id));
                        }
                    }
                    assert(order@.to_set() =~= placed@) by {
                        assert forall|x: NodeId| order@.to_set().contains(x) == placed@.contains(
                            x,
                        ) by {
                            if before.contains(x) {
                                assert(before.to_set().contains(x));
                                let q = choose|q: int| 0 <= q < before.len() && before[q] == x;
                                assert(order@[q] == x);
                            }
                            assert(order@[before.len() as int] == id);
                            if was.contains(x) {
                                assert(before.to_set().contains(x));
                            }
                        }
                    }
                    assert forall|k: int, i: int|
                        0 <= k < order@.len() && 0 <= i
                            < all[order@[k]].len() implies comes_before(
                        order@,
                        #[trigger] all[order@[k]][i],
                        k,
                    ) by {
                        assert(order@.take(k) =~= before.take(k));
                        if k < before.len() {
                            assert(comes_before(before, all[before[k]][i], k));
                        } else {
                            assert(before.take(k) =~= before);
                            assert(source_in(all[id][i], was));
                            if let Some(s) = all[id][i].node {
                                assert(before.to_set().contains(s));
                            }
                        }
                    }
                }
            },
        }
    }
    proof {
        ids@.unique_seq_to_set();
        order@.unique_seq_to_set();
        vstd::set_lib::lemma_subset_equality(placed@, all.dom());
    }
    Some(order)
}

/// The nodes of an order are those of the graph.
pub proof fn lemma_order_nodes<T: Wired>(nodes: Map<NodeId, T>, order: Seq<NodeId>)
    requires
        ordered(sources(nodes), order),
    ensures
        forall|i: int| 0 <= i < order.len() ==> nodes.contains_key(#[trigger] order[i]),
        forall|n: NodeId| #[trigger] nodes.contains_key(n) ==> order.contains(n),
{
    assert(sources(nodes).dom() =~= nodes.dom());
    assert forall|i: int| 0 <= i < order.len() implies nodes.contains_key(#[trigger] order[i]) by {
        assert(order.to_set().contains(order[i]));
    }
    assert forall|n: NodeId| #[trigger] nodes.contains_key(n) implies order.contains(n) by {
        assert(order.to_set().contains(n));
    }
}

} // verus!
