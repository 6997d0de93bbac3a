//! What a topological order of a graph model is, and the counting facts
//! about input edges that the sort rests on.

use vstd::prelude::*;
use crate::model::{NodeId, NodeModel};

verus! {

/// The ids of the nodes, in model order.
pub open spec fn node_ids(nodes: Seq<NodeModel>) -> Seq<NodeId> {
    nodes.map_values(|n: NodeModel| n.id)
}

/// `x` stands somewhere before `y` in `order`.
pub open spec fn precedes(order: Seq<NodeId>, x: NodeId, y: NodeId) -> bool {
    exists|p: int, q: int| 0 <= p < q < order.len() && order[p] == x && order[q] == y
}

/// `order` names every node of `nodes` exactly once, and every node
/// after each of its inputs. Only a model whose ids are distinct and
/// whose inputs all name nodes of the model, with no cycle among them,
/// has such an order.
pub open spec fn is_topological_order(nodes: Seq<NodeModel>, order: Seq<NodeId>) -> bool {
    &&& order.len() == nodes.len()
    &&& order.no_duplicates()
    &&& forall|k: int| 0 <= k < order.len() ==> node_ids(nodes).contains(#[trigger] order[k])
    &&& forall|j: int| 0 <= j < nodes.len() ==> order.contains(#[trigger] nodes[j].id)
    &&& forall|j: int, a: int|
        0 <= j < nodes.len() && 0 <= a < nodes[j].inputs@.len() ==> precedes(
            order,
            #[trigger] nodes[j].inputs@[a],
            nodes[j].id,
        )
}

/// The model can be put in a topological order.
pub open spec fn has_topological_order(nodes: Seq<NodeModel>) -> bool {
    exists|order: Seq<NodeId>| is_topological_order(nodes, order)
}

/// The input edges of one node, as (node, source) pairs in slot order.
pub open spec fn node_edges(n: NodeModel) -> Seq<(NodeId, NodeId)> {
    n.inputs@.map_values(|x: NodeId| (n.id, x))
}

/// Every input edge of the model, as (node, source) pairs, node by node.
pub open spec fn edges(nodes: Seq<NodeModel>) -> Seq<(NodeId, NodeId)>
    decreases nodes.len(),
{
    if nodes.len() == 0 {
        Seq::empty()
    } else {
        edges(nodes.drop_last()) + node_edges(nodes.last())
    }
}

/// The number of input edges into `m` whose source is not in `done`.
pub open spec fn pending(es: Seq<(NodeId, NodeId)>, m: NodeId, done: Set<NodeId>) -> nat
    decreases es.len(),
{
    if es.len() == 0 {
        0
    } else {
        pending(es.drop_last(), m, done) + if es.last().0 == m && !done.contains(es.last().1) {
            1nat
        } else {
            0nat
        }
    }
}

/// The nodes fed by `p`, once per edge, in edge order.
pub open spec fn targets_from(es: Seq<(NodeId, NodeId)>, p: NodeId) -> Seq<NodeId>
    decreases es.len(),
{
    if es.len() == 0 {
        Seq::empty()
    } else {
        targets_from(es.drop_last(), p) + if es.last().1 == p {
            seq![es.last().0]
        } else {
            Seq::empty()
        }
    }
}

/// How often `m` occurs in `s`.
pub open spec fn occ(s: Seq<NodeId>, m: NodeId) -> nat
    decreases s.len(),
{
    if s.len() == 0 {
        0
    } else {
        occ(s.drop_last(), m) + if s.last() == m {
            1nat
        } else {
            0nat
        }
    }
}

pub proof fn lemma_occ_concat(s1: Seq<NodeId>, s2: Seq<NodeId>, m: NodeId)
    ensures
        occ(s1 + s2, m) == occ(s1, m) + occ(s2, m),
    decreases s2.len(),
{
    if s2.len() == 0 {
        assert(s1 + s2 =~= s1);
    } else {
        assert((s1 + s2).drop_last() =~= s1 + s2.drop_last());
        lemma_occ_concat(s1, s2.drop_last(), m);
    }
}

pub proof fn lemma_occ_single(x: NodeId, m: NodeId)
    ensures
        occ(seq![x], m) == if x == m {
            1nat
        } else {
            0nat
        },
{
    assert(seq![x].drop_last() =~= Seq::<NodeId>::empty());
    assert(occ(Seq::<NodeId>::empty(), m) == 0);
}

/// Occurrences of `m` in the tail of `s` from `k` on.
pub proof fn lemma_occ_step(s: Seq<NodeId>, k: int, m: NodeId)
    requires
        0 <= k < s.len(),
    ensures
        occ(s.subrange(k, s.len() as int), m) == occ(s.subrange(k + 1, s.len() as int), m) + if s[k]
            == m {
            1nat
        } else {
            0nat
        },
{
    let rest = s.subrange(k + 1, s.len() as int);
    assert(s.subrange(k, s.len() as int) =~= seq![s[k]] + rest);
    lemma_occ_concat(seq![s[k]], rest, m);
    lemma_occ_single(s[k], m);
}

/// Removing the edges from `p` from the pending count leaves what `p` feeds.
pub proof fn lemma_pending_split(es: Seq<(NodeId, NodeId)>, m: NodeId, done: Set<NodeId>, p: NodeId)
    requires
        !done.contains(p),
    ensures
        pending(es, m, done) == pending(es, m, done.insert(p)) + occ(targets_from(es, p), m),
    decreases es.len(),
{
    if es.len() > 0 {
        lemma_pending_split(es.drop_last(), m, done, p);
        let rest = targets_from(es.drop_last(), p);
        if es.last().1 == p {
            lemma_occ_concat(rest, seq![es.last().0], m);
            lemma_occ_single(es.last().0, m);
        } else {
            assert(rest + Seq::<NodeId>::empty() =~= rest);
            assert(done.insert(p).contains(es.last().1) == done.contains(es.last().1));
        }
    }
}

/// No pending edge into `m` means all its sources are done.
pub proof fn lemma_pending_zero(es: Seq<(NodeId, NodeId)>, m: NodeId, done: Set<NodeId>)
    ensures
        pending(es, m, done) == 0 <==> forall|i: int|
            0 <= i < es.len() && (#[trigger] es[i]).0 == m ==> done.contains(es[i].1),
    decreases es.len(),
{
    if es.len() > 0 {
        lemma_pending_zero(es.drop_last(), m, done);
        assert forall|i: int| 0 <= i < es.len() - 1 implies #[trigger] es[i] == es.drop_last()[i] by {}
    }
}

/// The pending count never exceeds the number of edges.
pub proof fn lemma_pending_bound(es: Seq<(NodeId, NodeId)>, m: NodeId, done: Set<NodeId>)
    ensures
        pending(es, m, done) <= es.len(),
    decreases es.len(),
{
    if es.len() > 0 {
        lemma_pending_bound(es.drop_last(), m, done);
    }
}

/// What `p` feeds lies in any set that holds the node of every edge.
pub proof fn lemma_targets_within(es: Seq<(NodeId, NodeId)>, p: NodeId, d: Set<NodeId>)
    requires
        forall|k: int| 0 <= k < es.len() ==> d.contains((#[trigger] es[k]).0),
    ensures
        forall|i: int| 0 <= i < targets_from(es, p).len() ==> d.contains(#[trigger] targets_from(es, p)[i]),
    decreases es.len(),
{
    if es.len() > 0 {
        let rest = es.drop_last();
        assert forall|k: int| 0 <= k < rest.len() implies d.contains((#[trigger] rest[k]).0) by {
            assert(rest[k] == es[k]);
        }
        lemma_targets_within(rest, p, d);
        assert(d.contains(es[es.len() - 1].0));
        let t = targets_from(es, p);
        let tr = targets_from(rest, p);
        assert forall|i: int| 0 <= i < t.len() implies d.contains(#[trigger] t[i]) by {
            if i < tr.len() {
                assert(t[i] == tr[i]);
            }
        }
    }
}

/// `e` is the edge of some input slot of some node.
pub open spec fn is_input_edge(nodes: Seq<NodeModel>, e: (NodeId, NodeId)) -> bool {
    exists|j: int, a: int|
        0 <= j < nodes.len() && 0 <= a < nodes[j].inputs@.len() && e == (
            nodes[j].id,
            #[trigger] nodes[j].inputs@[a],
        )
}

/// The edges of a model are exactly its (node, input) pairs.
pub proof fn lemma_edges_members(nodes: Seq<NodeModel>)
    ensures
        forall|j: int, a: int|
            0 <= j < nodes.len() && 0 <= a < nodes[j].inputs@.len() ==> edges(nodes).contains(
                (nodes[j].id, #[trigger] nodes[j].inputs@[a]),
            ),
        forall|k: int| 0 <= k < edges(nodes).len() ==> is_input_edge(nodes, #[trigger] edges(nodes)[k]),
    decreases nodes.len(),
{
    if nodes.len() > 0 {
        let init = nodes.drop_last();
        let last = nodes.last();
        lemma_edges_members(init);
        let e = edges(nodes);
        let ei = edges(init);
        let le = node_edges(last);
        assert(e == ei + le);
        assert forall|j: int, a: int|
            0 <= j < nodes.len() && 0 <= a < nodes[j].inputs@.len() implies e.contains(
            (nodes[j].id, #[trigger] nodes[j].inputs@[a]),
        ) by {
            if j < nodes.len() - 1 {
                assert(nodes[j] == init[j]);
                assert(init[j].inputs@[a] == nodes[j].inputs@[a]);
                assert(ei.contains((init[j].id, init[j].inputs@[a])));
                let k = choose|k: int| 0 <= k < ei.len() && ei[k] == (init[j].id, init[j].inputs@[a]);
                assert(e[k] == ei[k]);
            } else {
                assert(e[ei.len() + a] == le[a]);
            }
        }
        assert forall|k: int| 0 <= k < e.len() implies is_input_edge(nodes, #[trigger] e[k]) by {
            if k < ei.len() {
                assert(e[k] == ei[k]);
                assert(is_input_edge(init, ei[k]));
                let (j, a) = choose|j: int, a: int|
                    0 <= j < init.len() && 0 <= a < init[j].inputs@.len() && ei[k] == (
                        init[j].id,
                        init[j].inputs@[a],
                    );
                assert(nodes[j] == init[j]);
                assert(e[k] == (nodes[j].id, nodes[j].inputs@[a]));
            } else {
                let a = k - ei.len();
                let j = nodes.len() - 1;
                assert(e[k] == le[a]);
                assert(nodes[j] == last);
                assert(e[k] == (nodes[j].id, nodes[j].inputs@[a]));
            }
        }
    }
}

/// A duplicate-free sequence drawn from a finite set is no longer than it.
pub proof fn lemma_unique_within(s: Seq<NodeId>, d: Set<NodeId>)
    requires
        s.no_duplicates(),
        d.finite(),
        forall|i: int| 0 <= i < s.len() ==> d.contains(#[trigger] s[i]),
    ensures
        s.len() <= d.len(),
{
    s.unique_seq_to_set();
    assert(s.to_set().subset_of(d));
    vstd::set_lib::lemma_len_subset(s.to_set(), d);
}

/// The edges of the first `j` nodes come first among all edges.
pub proof fn lemma_edges_prefix(nodes: Seq<NodeModel>, j: int)
    requires
        0 <= j < nodes.len(),
    ensures
        edges(nodes.take(j + 1)) == edges(nodes.take(j)) + node_edges(nodes[j]),
        edges(nodes.take(j)).len() + nodes[j].inputs@.len() <= edges(nodes).len(),
    decreases nodes.len(),
{
    assert(nodes.take(j + 1).drop_last() =~= nodes.take(j));
    if j + 1 < nodes.len() {
        lemma_edges_prefix(nodes.drop_last(), j);
        assert(nodes.drop_last().take(j) =~= nodes.take(j));
        assert(nodes.drop_last().take(j + 1) =~= nodes.take(j + 1));
    } else {
        assert(nodes.take(j + 1) =~= nodes);
    }
}

/// Counting one more edge.
pub proof fn lemma_pending_push(es: Seq<(NodeId, NodeId)>, e: (NodeId, NodeId), m: NodeId, done: Set<NodeId>)
    ensures
        pending(es.push(e), m, done) == pending(es, m, done) + if e.0 == m && !done.contains(e.1) {
            1nat
        } else {
            0nat
        },
        targets_from(es.push(e), m) == targets_from(es, m) + if e.1 == m {
            seq![e.0]
        } else {
            Seq::empty()
        },
{
    assert(es.push(e).drop_last() =~= es);
}

/// Every entry of `out` before position `k` holds each source of an edge
/// into `out[k]`.
pub open spec fn sources_before(es: Seq<(NodeId, NodeId)>, out: Seq<NodeId>) -> bool {
    forall|k: int, i: int|
        0 <= k < out.len() && 0 <= i < es.len() && (#[trigger] es[i]).0 == #[trigger] out[k]
            ==> out.take(k).contains(es[i].1)
}

/// A full-length, duplicate-free listing of node ids in which every edge's
/// source comes before its node is a topological order.
pub proof fn lemma_sorted_is_topological(nodes: Seq<NodeModel>, out: Seq<NodeId>)
    requires
        out.no_duplicates(),
        out.len() == nodes.len(),
        forall|i: int| 0 <= i < out.len() ==> node_ids(nodes).contains(#[trigger] out[i]),
        sources_before(edges(nodes), out),
    ensures
        is_topological_order(nodes, out),
{
    let ids = node_ids(nodes);
    let d = ids.to_set();
    let es = edges(nodes);
    ids.lemma_cardinality_of_set();
    assert forall|j: int| 0 <= j < nodes.len() implies out.contains(#[trigger] nodes[j].id) by {
        let id = nodes[j].id;
        assert(ids[j] == id);
        if !out.contains(id) {
            assert forall|i: int| 0 <= i < out.len() implies d.remove(id).contains(#[trigger] out[i]) by {}
            lemma_unique_within(out, d.remove(id));
        }
    }
    lemma_edges_members(nodes);
    assert forall|j: int, a: int|
        0 <= j < nodes.len() && 0 <= a < nodes[j].inputs@.len() implies precedes(
        out,
        #[trigger] nodes[j].inputs@[a],
        nodes[j].id,
    ) by {
        let x = nodes[j].inputs@[a];
        let id = nodes[j].id;
        assert(es.contains((id, x)));
        let i = choose|i: int| 0 <= i < es.len() && es[i] == (id, x);
        assert(out.contains(id));
        let k = choose|k: int| 0 <= k < out.len() && out[k] == id;
        assert(es[i].0 == out[k]);
        assert(out.take(k).contains(x));
        let p = choose|p: int| 0 <= p < k && out.take(k)[p] == x;
        assert(out[p] == x);
    }
}

/// When every node whose pending count is zero has been listed, and the
/// model has a topological order, the listing holds every node.
proof fn lemma_prefix_listed(
    nodes: Seq<NodeModel>,
    out: Seq<NodeId>,
    order: Seq<NodeId>,
    k: int,
)
    requires
        is_topological_order(nodes, order),
        0 <= k <= order.len(),
        forall|m: NodeId|
            node_ids(nodes).contains(m) && pending(edges(nodes), m, out.to_set()) == 0
                ==> out.contains(m),
    ensures
        forall|i: int| 0 <= i < k ==> out.contains(#[trigger] order[i]),
    decreases k,
{
    if k > 0 {
        lemma_prefix_listed(nodes, out, order, k - 1);
        let es = edges(nodes);
        let m = order[k - 1];
        lemma_edges_members(nodes);
        assert forall|i: int| 0 <= i < es.len() && (#[trigger] es[i]).0 == m implies out.to_set().contains(
            es[i].1,
        ) by {
            assert(is_input_edge(nodes, es[i]));
            let (j, a) = choose|j: int, a: int|
                0 <= j < nodes.len() && 0 <= a < nodes[j].inputs@.len() && es[i] == (
                    nodes[j].id,
                    nodes[j].inputs@[a],
                );
            let x = nodes[j].inputs@[a];
            assert(precedes(order, x, nodes[j].id));
            let (p, q) = choose|p: int, q: int|
                0 <= p < q < order.len() && order[p] == x && order[q] == nodes[j].id;
            assert(q == k - 1);
            assert(out.contains(order[p]));
        }
        lemma_pending_zero(es, m, out.to_set());
    }
}

/// If the model has a topological order, a duplicate-free listing of node
/// ids that holds every node whose pending count is zero holds them all.
pub proof fn lemma_listing_complete(nodes: Seq<NodeModel>, out: Seq<NodeId>)
    requires
        has_topological_order(nodes),
        out.no_duplicates(),
        forall|i: int| 0 <= i < out.len() ==> node_ids(nodes).contains(#[trigger] out[i]),
        forall|m: NodeId|
            node_ids(nodes).contains(m) && pending(edges(nodes), m, out.to_set()) == 0
                ==> out.contains(m),
    ensures
        out.len() == nodes.len(),
{
    let order = choose|order: Seq<NodeId>| is_topological_order(nodes, order);
    lemma_prefix_listed(nodes, out, order, order.len() as int);
    let ids = node_ids(nodes);
    ids.lemma_cardinality_of_set();
    lemma_unique_within(out, ids.to_set());
    assert forall|i: int| 0 <= i < order.len() implies out.to_set().contains(#[trigger] order[i]) by {}
    lemma_unique_within(order, out.to_set());
    out.unique_seq_to_set();
    assert(ids.len() == nodes.len());
}

} // verus!
