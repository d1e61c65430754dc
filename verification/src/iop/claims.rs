//! Handing claims from node to node.
use crate::claim::{Claim, ClaimView, cviews};
use crate::field::GoldilocksExt2;
use crate::iop::error::{VerifierError, message_err, message_error};
use crate::layers::provable::{Edge, NodeCtx, NodeId, OutputWire};
use crate::layers::provable::error::ProvableOpError;
use crate::model::{below, keys_of, lemma_below};
use crate::text::{append_decimal, decimal};
use std::collections::HashMap;
use vstd::prelude::*;
use vstd::string::*;

verus! {

/// The claims about the inputs of nodes, by node.
pub open spec fn claim_views(m: Map<NodeId, Vec<Claim<GoldilocksExt2>>>) -> Map<
    NodeId,
    Seq<ClaimView>,
> {
    m.map_values(|v: Vec<Claim<GoldilocksExt2>>| cviews(v@))
}

/// The claim about an output: that about the one input, or output of the model, that it goes to.
pub open spec fn wire_claim(
    claims: Map<NodeId, Seq<ClaimView>>,
    out_claims: Seq<ClaimView>,
    wire: Seq<Edge>,
) -> Option<ClaimView> {
    if wire.len() != 1 {
        None
    } else {
        let e = wire[0];
        match e.node {
            Some(n) => if claims.contains_key(n) && e.index < claims[n].len() {
                Some(claims[n][e.index as int])
            } else {
                None
            },
            None => if e.index < out_claims.len() {
                Some(out_claims[e.index as int])
            } else {
                None
            },
        }
    }
}

/// Output `w` is the first about which there is no claim.
pub open spec fn first_unclaimed(
    claims: Map<NodeId, Seq<ClaimView>>,
    out_claims: Seq<ClaimView>,
    outputs: Seq<OutputWire>,
    w: int,
) -> bool {
    &&& 0 <= w < outputs.len()
    &&& wire_claim(claims, out_claims, outputs[w].edges@) is None
    &&& forall|u: int|
        0 <= u < w ==> wire_claim(claims, out_claims, (#[trigger] outputs[u]).edges@) is Some
}

/// The message on an output about which there is no claim.
pub open spec fn unclaimed_message(w: int) -> Seq<char> {
    "No claim found for output "@ + decimal(w as nat) + " of the node"@
}

fn find_claim(
    claims: &HashMap<NodeId, Vec<Claim<GoldilocksExt2>>>,
    out_claims: &[Claim<GoldilocksExt2>],
    wire: &OutputWire,
) -> (r: Option<Claim<GoldilocksExt2>>)
    ensures
        match wire_claim(claim_views(claims@), cviews(out_claims@), wire.edges@) {
            Some(c) => r is Some && r->0@ == c,
            None => r is None,
        },
{
    if wire.edges.len() != 1 {
        return None;
    }
    let e = wire.edges[0];
    match e.node {
        Some(n) => match claims.get(&n) {
            Some(list) => {
                assert(claim_views(claims@)[n] == cviews(list@));
                if e.index < list.len() {
                    Some(list[e.index].copy())
                } else {
                    None
                }
            },
            None => None,
        },
        None => if e.index < out_claims.len() {
            Some(out_claims[e.index].copy())
        } else {
            None
        },
    }
}

impl NodeCtx {
    /// The claims about the outputs of the node: those about the inputs, or outputs of the model,
    /// that they go to. Fails at the first output without a claim.
    pub fn claims_for_node(
        &self,
        claims: &HashMap<NodeId, Vec<Claim<GoldilocksExt2>>>,
        out_claims: &[Claim<GoldilocksExt2>],
    ) -> (r: Result<Vec<Claim<GoldilocksExt2>>, VerifierError>)
        ensures
            r is Ok <==> forall|w: int|
                0 <= w < self.outputs@.len() ==> wire_claim(
                    claim_views(claims@),
                    cviews(out_claims@),
                    (#[trigger] self.outputs@[w]).edges@,
                ) is Some,
            r matches Ok(v) ==> cviews(v@) == Seq::new(
                self.outputs@.len(),
                |w: int|
                    wire_claim(
                        claim_views(claims@),
                        cviews(out_claims@),
                        self.outputs@[w].edges@,
                    )->0,
            ),
            r is Err ==> exists|w: int| #[trigger]
                first_unclaimed(
                    claim_views(claims@),
                    cviews(out_claims@),
                    self.outputs@,
                    w,
                ) && message_error(r, unclaimed_message(w)),
    {
        let ghost m = claim_views(claims@);
        let ghost o = cviews(out_claims@);
        let mut v: Vec<Claim<GoldilocksExt2>> = Vec::new();
        let mut w: usize = 0;
        while w < self.outputs.len()
            invariant
                m == claim_views(claims@),
                o == cviews(out_claims@),
                w <= self.outputs@.len(),
                v.len() == w,
                forall|u: int|
                    0 <= u < w ==> wire_claim(m, o, (#[trigger] self.outputs@[u]).edges@) is Some,
                forall|u: int|
                    0 <= u < w ==> (#[trigger] v@[u])@ == wire_claim(
                        m,
                        o,
                        self.outputs@[u].edges@,
                    )->0,
            decreases self.outputs@.len() - w,
        {
            match find_claim(claims, out_claims, &self.outputs[w]) {
                Some(c) => {
                    v.push(c);
                },
                None => {
                    let mut s = String::from_str("No claim found for output ");
                    append_decimal(&mut s, w);
                    s.append(" of the node");
                    assert(first_unclaimed(m, o, self.outputs@, w as int));
                    return Err(VerifierError::Message(s));
                },
            }
            w = w + 1;
        }
        assert(cviews(v@) =~= Seq::new(
            self.outputs@.len(),
            |w: int| wire_claim(m, o, self.outputs@[w].edges@)->0,
        ));
        Ok(v)
    }
}

/// The claims that a layer leaves, where `res` is what its verification came to. A layer that
/// cannot be proved does not change its inputs: it leaves the claims that it was given.
pub fn resulting_claims(
    res: Result<Vec<Claim<GoldilocksExt2>>, ProvableOpError>,
    given: Vec<Claim<GoldilocksExt2>>,
) -> (r: Result<Vec<Claim<GoldilocksExt2>>, VerifierError>)
    ensures
        match res {
            Ok(c) => r == Ok::<Vec<Claim<GoldilocksExt2>>, VerifierError>(c),
            Err(ProvableOpError::NotProvableLayer(_)) => r == Ok::<
                Vec<Claim<GoldilocksExt2>>,
                VerifierError,
            >(given),
            Err(e) => r == Err::<Vec<Claim<GoldilocksExt2>>, VerifierError>(
                VerifierError::Operation(e),
            ),
        },
{
    match res {
        Ok(c) => Ok(c),
        Err(e) => match e {
            ProvableOpError::NotProvableLayer(_) => Ok(given),
            _ => Err(VerifierError::Operation(e)),
        },
    }
}

// ---------------------------------------------------------------------------------------
// Claims about the inputs of the model
// ---------------------------------------------------------------------------------------

/// Input `i` of node `id` takes input `k` of the model.
pub open spec fn takes_input(nodes: Map<NodeId, NodeCtx>, id: NodeId, i: int, k: usize) -> bool {
    &&& nodes.contains_key(id)
    &&& 0 <= i < nodes[id].inputs@.len()
    &&& nodes[id].inputs@[i] == Edge { node: None, index: k }
}

/// Some node takes input `k` of the model.
pub open spec fn input_taken(nodes: Map<NodeId, NodeCtx>, k: usize) -> bool {
    exists|id: NodeId, i: int| #[trigger] takes_input(nodes, id, i, k)
}

/// The inputs of the model that nodes take are the first `n`, all of them.
pub open spec fn inputs_complete(nodes: Map<NodeId, NodeCtx>, n: nat) -> bool {
    &&& forall|k: usize| k < n ==> #[trigger] input_taken(nodes, k)
    &&& forall|id: NodeId, i: int, k: usize| #[trigger] takes_input(nodes, id, i, k) ==> k < n
}

/// There is a claim about input `i` of node `id`.
pub open spec fn claim_known(claims: Map<NodeId, Seq<ClaimView>>, id: NodeId, i: int) -> bool {
    claims.contains_key(id) && 0 <= i < claims[id].len()
}

/// There is a claim about every input that takes an input of the model.
pub open spec fn claims_known(
    nodes: Map<NodeId, NodeCtx>,
    claims: Map<NodeId, Seq<ClaimView>>,
) -> bool {
    forall|id: NodeId, i: int, k: usize| #[trigger]
        takes_input(nodes, id, i, k) ==> claim_known(claims, id, i)
}

/// The claim is one about input `k` of the model.
pub open spec fn is_input_claim(
    nodes: Map<NodeId, NodeCtx>,
    claims: Map<NodeId, Seq<ClaimView>>,
    k: usize,
    c: ClaimView,
) -> bool {
    exists|id: NodeId, i: int| #[trigger]
        takes_input(nodes, id, i, k) && claim_known(claims, id, i) && c == claims[id][i]
}

/// An input of the model with a claim about it.
type InputEntry = (usize, Claim<GoldilocksExt2>);

/// The numbers of the inputs.
spec fn input_numbers(s: Seq<InputEntry>) -> Seq<usize> {
    Seq::new(s.len(), |j: int| s[j].0)
}

/// There is an entry for input `k` of the model.
spec fn input_listed(s: Seq<InputEntry>, k: usize) -> bool {
    exists|j: int| 0 <= j < s.len() && (#[trigger] s[j]).0 == k
}

/// All entries are right.
spec fn entries_right(
    nodes: Map<NodeId, NodeCtx>,
    claims: Map<NodeId, Seq<ClaimView>>,
    s: Seq<InputEntry>,
) -> bool {
    forall|j: int|
        0 <= j < s.len() ==> is_input_claim(nodes, claims, (#[trigger] s[j]).0, s[j].1@)
}

/// No more inputs than entries.
proof fn lemma_input_count(nodes: Map<NodeId, NodeCtx>, s: Seq<InputEntry>, n: nat)
    requires
        forall|id: NodeId, i: int, k: usize| #[trigger]
            takes_input(nodes, id, i, k) ==> input_listed(s, k),
        inputs_complete(nodes, n),
        n <= usize::MAX + 1,
    ensures
        n <= s.len(),
{
    let ks = input_numbers(s);
    lemma_below(n);
    assert(below(n).subset_of(ks.to_set())) by {
        assert forall|k: usize| below(n).contains(k) implies ks.to_set().contains(k) by {
            assert(input_taken(nodes, k));
            let (id, i) = choose|id: NodeId, i: int| #[trigger] takes_input(nodes, id, i, k);
            assert(input_listed(s, k));
            let j = choose|j: int| 0 <= j < s.len() && (#[trigger] s[j]).0 == k;
            assert(ks[j] == k);
        }
    }
    ks.lemma_cardinality_of_set();
    vstd::set_lib::lemma_len_subset(below(n), ks.to_set());
}

/// Lists the inputs of the model that nodes take, with a claim about each; none where a claim is
/// missing.
fn list_input_claims(
    nodes: &HashMap<NodeId, NodeCtx>,
    claims: &HashMap<NodeId, Vec<Claim<GoldilocksExt2>>>,
) -> (r: Option<Vec<InputEntry>>)
    ensures
        r is Some <==> claims_known(nodes@, claim_views(claims@)),
        r matches Some(s) ==> {
            &&& entries_right(nodes@, claim_views(claims@), s@)
            &&& forall|id: NodeId, i: int, k: usize| #[trigger]
                takes_input(nodes@, id, i, k) ==> input_listed(s@, k)
        },
{
    let ghost m = claim_views(claims@);
    let ids = keys_of(nodes);
    let mut s: Vec<InputEntry> = Vec::new();
    let mut p: usize = 0;
    while p < ids.len()
        invariant
            m == claim_views(claims@),
            ids@.to_set() == nodes@.dom(),
            p <= ids@.len(),
            entries_right(nodes@, m, s@),
            forall|q: int, i: int, k: usize|
                0 <= q < p && #[trigger] takes_input(nodes@, ids@[q], i, k) ==> input_listed(s@, k)
                    && claim_known(m, ids@[q], i),
        decreases ids@.len() - p,
    {
        let id = ids[p];
        assert(ids@.to_set().contains(ids@[p as int]));
        if let Some(node) = nodes.get(&id) {
            let ghost outer = s@;
            let mut i: usize = 0;
            while i < node.inputs.len()
                invariant
                    m == claim_views(claims@),
                    nodes@.contains_key(id),
                    *node == nodes@[id],
                    i <= node.inputs@.len(),
                    entries_right(nodes@, m, s@),
                    forall|k: usize| input_listed(outer, k) ==> #[trigger] input_listed(s@, k),
                    forall|u: int, k: usize|
                        0 <= u < i && #[trigger] takes_input(nodes@, id, u, k) ==> input_listed(
                            s@,
                            k,
                        ) && claim_known(m, id, u),
                decreases node.inputs@.len() - i,
            {
                let e = node.inputs[i];
                let ghost before = s@;
                if e.node.is_none() {
                    let k = e.index;
                    assert(takes_input(nodes@, id, i as int, k));
                    match claims.get(&id) {
                        Some(list) => {
                            assert(m[id] == cviews(list@));
                            if i >= list.len() {
                                assert(!claim_known(m, id, i as int));
                                return None;
                            }
                            assert(claim_known(m, id, i as int));
                            let c = list[i].copy();
                            assert(is_input_claim(nodes@, m, k, c@));
                            s.push((k, c));
                            proof {
                                assert forall|j: int| 0 <= j < s@.len() implies is_input_claim(
                                    nodes@,
                                    m,
                                    (#[trigger] s@[j]).0,
                                    s@[j].1@,
                                ) by {
                                    if j < before.len() {
                                        assert(s@[j] == before[j]);
                                    }
                                }
                                assert(input_listed(s@, k)) by {
                                    assert(s@[before.len() as int].0 == k);
                                }
                            }
                        },
                        None => {
                            assert(!claim_known(m, id, i as int));
                            return None;
                        },
                    }
                }
                proof {
                    assert forall|k: usize| input_listed(before, k) implies #[trigger] input_listed(
                        s@,
                        k,
                    ) by {
                        let j = choose|j: int| 0 <= j < before.len() && (#[trigger] before[j]).0
                            == k;
                        assert(s@[j] == before[j]);
                    }
                    assert forall|u: int, k: usize|
                        0 <= u < i + 1 && #[trigger] takes_input(
                            nodes@,
                            id,
                            u,
                            k,
                        ) implies input_listed(s@, k) && claim_known(m, id, u) by {
                        if u < i {
                            assert(input_listed(before, k));
                        }
                    }
                    assert forall|k: usize| input_listed(outer, k) implies #[trigger] input_listed(
                        s@,
                        k,
                    ) by {
                        assert(input_listed(before, k));
                    }
                }
                i = i + 1;
            }
            proof {
                assert forall|q: int, u: int, k: usize|
                    0 <= q < p + 1 && #[trigger] takes_input(
                        nodes@,
                        ids@[q],
                        u,
                        k,
                    ) implies input_listed(s@, k) && claim_known(m, ids@[q], u) by {
                    if q < p {
                        assert(input_listed(outer, k));
                    }
                }
            }
        }
        p = p + 1;
    }
    proof {
        assert forall|id: NodeId, i: int, k: usize| #[trigger]
            takes_input(nodes@, id, i, k) implies input_listed(s@, k) && claim_known(m, id, i) by {
            assert(ids@.to_set().contains(id));
            let q = choose|q: int| 0 <= q < ids@.len() && ids@[q] == id;
            assert(takes_input(nodes@, ids@[q], i, k));
        }
    }
    Some(s)
}

/// One claim about each input of the model that nodes take. Where several nodes take the same
/// input, any of the claims about it may come out. Fails where a claim is missing, and where the
/// inputs that nodes take are not numbered from zero on without gaps.
pub fn input_claims(
    nodes: &HashMap<NodeId, NodeCtx>,
    claims: &HashMap<NodeId, Vec<Claim<GoldilocksExt2>>>,
) -> (r: Result<Vec<Claim<GoldilocksExt2>>, VerifierError>)
    ensures
        r is Ok <==> claims_known(nodes@, claim_views(claims@)) && exists|n: nat|
            n <= usize::MAX + 1 && #[trigger] inputs_complete(nodes@, n),
        r matches Ok(v) ==> {
            &&& inputs_complete(nodes@, v@.len())
            &&& forall|k: usize|
                k < v@.len() ==> is_input_claim(
                    nodes@,
                    claim_views(claims@),
                    k,
                    #[trigger] cviews(v@)[k as int],
                )
        },
        !claims_known(nodes@, claim_views(claims@)) ==> message_error(
            r,
            "No claim found for an input of the model"@,
        ),
        r is Err && claims_known(nodes@, claim_views(claims@)) ==> message_error(
            r,
            "The inputs of the model are not numbered without gaps"@,
        ),
{
    let ghost m = claim_views(claims@);
    let entries = match list_input_claims(nodes, claims) {
        Some(s) => s,
        None => {
            return message_err("No claim found for an input of the model");
        },
    };
    let total = entries.len();
    let mut slots: Vec<Option<Claim<GoldilocksExt2>>> = Vec::new();
    let mut j: usize = 0;
    while j < total
        invariant
            j <= total,
            slots.len() == j,
            forall|q: int| 0 <= q < j ==> #[trigger] slots@[q] is None,
        decreases total - j,
    {
        slots.push(None);
        j = j + 1;
    }
    j = 0;
    while j < total
        invariant
            m == claim_views(claims@),
            claims_known(nodes@, m),
            total == entries@.len(),
            slots.len() == total,
            entries_right(nodes@, m, entries@),
            forall|id: NodeId, i: int, k: usize| #[trigger]
                takes_input(nodes@, id, i, k) ==> input_listed(entries@, k),
            j <= total,
            forall|q: int|
                0 <= q < j ==> (#[trigger] entries@[q]).0 < total
                    && slots@[entries@[q].0 as int] is Some,
            forall|k: int|
                0 <= k < total && (#[trigger] slots@[k]) is Some ==> is_input_claim(
                    nodes@,
                    m,
                    k as usize,
                    slots@[k]->0@,
                ),
        decreases total - j,
    {
        let k = entries[j].0;
        assert(is_input_claim(nodes@, m, entries@[j as int].0, entries@[j as int].1@));
        if k >= total {
            proof {
                let (id, i) = choose|id: NodeId, i: int| #[trigger]
                    takes_input(nodes@, id, i, k) && claim_known(m, id, i)
                        && entries@[j as int].1@ == m[id][i];
                if exists|n: nat| n <= usize::MAX + 1 && #[trigger] inputs_complete(nodes@, n) {
                    let n = choose|n: nat|
                        n <= usize::MAX + 1 && #[trigger] inputs_complete(nodes@, n);
                    lemma_input_count(nodes@, entries@, n);
                    assert(takes_input(nodes@, id, i, k));
                }
            }
            return message_err("The inputs of the model are not numbered without gaps");
        }
        let ghost before = slots@;
        slots.set(k, Some(entries[j].1.copy()));
        proof {
            assert forall|q: int| 0 <= q < j + 1 implies (#[trigger] entries@[q]).0 < total
                && slots@[entries@[q].0 as int] is Some by {
                if q < j {
                    assert(before[entries@[q].0 as int] is Some);
                }
            }
            assert forall|q: int| 0 <= q < total && (
            #[trigger] slots@[q]) is Some implies is_input_claim(
                nodes@,
                m,
                q as usize,
                slots@[q]->0@,
            ) by {
                if q != k {
                    assert(before[q] is Some);
                }
            }
        }
        j = j + 1;
    }
    let mut v: Vec<Claim<GoldilocksExt2>> = Vec::new();
    let mut gap: bool = false;
    j = 0;
    while j < total
        invariant
            m == claim_views(claims@),
            claims_known(nodes@, m),
            total == entries@.len(),
            slots.len() == total,
            entries_right(nodes@, m, entries@),
            forall|id: NodeId, i: int, k: usize| #[trigger]
                takes_input(nodes@, id, i, k) ==> input_listed(entries@, k),
            forall|q: int|
                0 <= q < total ==> (#[trigger] entries@[q]).0 < total
                    && slots@[entries@[q].0 as int] is Some,
            forall|k: int|
                0 <= k < total && (#[trigger] slots@[k]) is Some ==> is_input_claim(
                    nodes@,
                    m,
                    k as usize,
                    slots@[k]->0@,
                ),
            j <= total,
            v.len() <= j,
            !gap ==> v.len() == j,
            gap ==> v.len() < total && slots@[v.len() as int] is None,
            forall|k: int| 0 <= k < v.len() ==> #[trigger] slots@[k] is Some,
            forall|k: int| v.len() <= k < j ==> #[trigger] slots@[k] is None,
            forall|k: int| 0 <= k < v.len() ==> (#[trigger] v@[k])@ == slots@[k]->0@,
        decreases total - j,
    {
        match &slots[j] {
            Some(c) => {
                if gap {
                    proof {
                        let g = v.len();
                        assert(slots@[j as int] is Some);
                        let (id, i) = choose|id: NodeId, i: int| #[trigger]
                            takes_input(nodes@, id, i, j) && claim_known(m, id, i)
                                && slots@[j as int]->0@ == m[id][i];
                        if exists|n: nat|
                            n <= usize::MAX + 1 && #[trigger] inputs_complete(nodes@, n) {
                            let n = choose|n: nat|
                                n <= usize::MAX + 1 && #[trigger] inputs_complete(nodes@, n);
                            assert(takes_input(nodes@, id, i, j));
                            assert(input_taken(nodes@, g));
                            let (id2, i2) = choose|id2: NodeId, i2: int| #[trigger]
                                takes_input(nodes@, id2, i2, g);
                            assert(input_listed(entries@, g));
                            let q = choose|q: int| 0 <= q < entries@.len() && (
                            #[trigger] entries@[q]).0 == g;
                            assert(slots@[entries@[q].0 as int] is Some);
                        }
                    }
                    return message_err("The inputs of the model are not numbered without gaps");
                }
                v.push(c.copy());
            },
            None => {
                gap = true;
            },
        }
        j = j + 1;
    }
    proof {
        assert(inputs_complete(nodes@, v@.len())) by {
            assert forall|k: usize| k < v@.len() implies #[trigger] input_taken(nodes@, k) by {
                assert(slots@[k as int] is Some);
                assert(is_input_claim(nodes@, m, k, slots@[k as int]->0@));
            }
            assert forall|id: NodeId, i: int, k: usize| #[trigger]
                takes_input(nodes@, id, i, k) implies k < v@.len() by {
                assert(input_listed(entries@, k));
                let q = choose|q: int| 0 <= q < entries@.len() && (#[trigger] entries@[q]).0 == k;
                assert(slots@[entries@[q].0 as int] is Some);
            }
        }
        assert forall|k: usize| k < v@.len() implies is_input_claim(
            nodes@,
            m,
            k,
            #[trigger] cviews(v@)[k as int],
        ) by {
            assert(slots@[k as int] is Some);
        }
    }
    Ok(v)
}

} // verus!
