//! The editable graph model: node kinds, node records and lookups by id.

use std::collections::HashMap;
use std::collections::VecDeque;
use vstd::prelude::*;
use vstd::std_specs::iter::IteratorSpec;
use crate::order::{
    edges, has_topological_order, is_topological_order, lemma_edges_members, lemma_edges_prefix,
    lemma_listing_complete, lemma_occ_step, lemma_pending_bound, lemma_pending_push,
    lemma_pending_split, lemma_pending_zero, lemma_sorted_is_topological, lemma_targets_within,
    lemma_unique_within, node_edges, node_ids, occ, pending, sources_before, targets_from,
    is_input_edge,
};

verus! {

/// Identifier of a node in the model: the 128-bit value of its UUID
/// (big-endian, as `Uuid::as_u128` gives it).
pub type NodeId = u128;

/// The kinds of node the renderer knows how to build.
#[derive(Clone, Copy, Debug, PartialEq, Eq, Structural)]
pub enum NodeKind {
    ColorSource,
    Invert,
    Particles,
    Add,
}

/// Position of a node on the editor canvas, kept as the IEEE-754 bit
/// patterns of its two `f32` coordinates. The graph logic never reads it;
/// it is carried so that a model survives a round trip unchanged.
#[derive(Clone, Copy, Debug, PartialEq, Eq, Structural)]
pub struct CanvasPos {
    pub x_bits: u32,
    pub y_bits: u32,
}

/// One node of the editable model.
#[derive(Clone, Debug)]
pub struct NodeModel {
    pub id: NodeId,
    pub kind: NodeKind,
    pub pos: CanvasPos,
    /// ordered inputs: each entry is the source node id for that input slot
    pub inputs: Vec<NodeId>,
}

/// The editable graph: a list of nodes, each naming its inputs by id.
#[derive(Clone, Debug)]
pub struct GraphModel {
    pub nodes: Vec<NodeModel>,
}

/// Index of the first node of `nodes` whose id is `id`, if any.
pub open spec fn first_with_id(nodes: Seq<NodeModel>, id: NodeId) -> Option<int>
    decreases nodes.len(),
{
    if nodes.len() == 0 {
        None
    } else if nodes[0].id == id {
        Some(0int)
    } else {
        match first_with_id(nodes.drop_first(), id) {
            Some(j) => Some(j + 1),
            None => None,
        }
    }
}

/// `first_with_id` is the least index holding the id.
pub proof fn lemma_first_with_id(nodes: Seq<NodeModel>, id: NodeId)
    ensures
        match first_with_id(nodes, id) {
            Some(j) => 0 <= j < nodes.len() && nodes[j].id == id && forall|i: int|
                0 <= i < j ==> nodes[i].id != id,
            None => forall|i: int| 0 <= i < nodes.len() ==> nodes[i].id != id,
        },
    decreases nodes.len(),
{
    if nodes.len() > 0 && nodes[0].id != id {
        lemma_first_with_id(nodes.drop_first(), id);
        match first_with_id(nodes.drop_first(), id) {
            Some(j) => {
                assert forall|i: int| 0 <= i < j + 1 implies nodes[i].id != id by {
                    if i > 0 {
                        assert(nodes[i] == nodes.drop_first()[i - 1]);
                    }
                }
            },
            None => {
                assert forall|i: int| 0 <= i < nodes.len() implies nodes[i].id != id by {
                    if i > 0 {
                        assert(nodes[i] == nodes.drop_first()[i - 1]);
                    }
                }
            },
        }
    }
}

/// The least index `j >= start` of `nodes` holding `id`, given that none
/// before `start` does.
proof fn lemma_first_with_id_at(nodes: Seq<NodeModel>, id: NodeId, j: int)
    requires
        0 <= j < nodes.len(),
        nodes[j].id == id,
        forall|i: int| 0 <= i < j ==> nodes[i].id != id,
    ensures
        first_with_id(nodes, id) == Some(j),
{
    lemma_first_with_id(nodes, id);
}

impl Default for GraphModel {
    fn default() -> (model: GraphModel)
        ensures
            model.nodes@ == Seq::<NodeModel>::empty(),
    {
        GraphModel { nodes: Vec::new() }
    }
}

impl GraphModel {
    /// The first node whose id is `id`, if there is one.
    pub fn find(&self, id: &NodeId) -> (found: Option<&NodeModel>)
        ensures
            match first_with_id(self.nodes@, *id) {
                Some(j) => found == Some(&self.nodes@[j]),
                None => found is None,
            },
    {
        let mut i: usize = 0;
        while i < self.nodes.len()
            invariant
                i <= self.nodes@.len(),
                forall|k: int| 0 <= k < i ==> self.nodes@[k].id != *id,
            decreases self.nodes@.len() - i,
        {
            if self.nodes[i].id == *id {
                proof {
                    lemma_first_with_id_at(self.nodes@, *id, i as int);
                }
                return Some(&self.nodes[i]);
            }
            i = i + 1;
        }
        proof {
            lemma_first_with_id(self.nodes@, *id);
        }
        None
    }

    /// A mutable reference to the first node whose id is `id`, if there is
    /// one. Whatever is written through it lands in that node and nowhere
    /// else.
    pub fn find_mut(&mut self, id: &NodeId) -> (found: Option<&mut NodeModel>)
        ensures
            match first_with_id(old(self).nodes@, *id) {
                Some(j) => found matches Some(r) && *r == old(self).nodes@[j]
                    && final(self).nodes@ == old(self).nodes@.update(j, *final(r)),
                None => found is None && *final(self) == *old(self),
            },
    {
        let mut i: usize = 0;
        while i < self.nodes.len()
            invariant
                *self == *old(self),
                i <= self.nodes@.len(),
                forall|k: int| 0 <= k < i ==> self.nodes@[k].id != *id,
            decreases self.nodes@.len() - i,
        {
            if self.nodes[i].id == *id {
                proof {
                    lemma_first_with_id_at(self.nodes@, *id, i as int);
                }
                return Some(&mut self.nodes[i]);
            }
            i = i + 1;
        }
        proof {
            lemma_first_with_id(self.nodes@, *id);
        }
        None
    }
}

/// Returns a topologically sorted list of NodeIds or an Err("cycle").
///
/// The sort succeeds exactly when the model has a topological order: its
/// ids are distinct, every input names a node of the model, and no node
/// depends on itself through its inputs. Which order comes out among the
/// valid ones depends on the order in which a hash map is walked.
pub fn topological_sort(model: &GraphModel) -> (result: Result<Vec<NodeId>, &'static str>)
    requires
        edges(model.nodes@).len() <= usize::MAX,
    ensures
        match result {
            Ok(order) => is_topological_order(model.nodes@, order@),
            Err(msg) => msg@ == "cycle"@ && !has_topological_order(model.nodes@),
        },
{
    broadcast use vstd::std_specs::hash::group_hash_axioms;

    let ghost nodes = model.nodes@;
    let ghost ids = node_ids(nodes);
    let ghost d = ids.to_set();
    let ghost es = edges(nodes);
    proof {
        lemma_edges_members(nodes);
        assert forall|k: int| 0 <= k < es.len() implies d.contains((#[trigger] es[k]).0) by {
            assert(is_input_edge(nodes, es[k]));
            let (j, a) = choose|j: int, a: int|
                0 <= j < nodes.len() && 0 <= a < nodes[j].inputs@.len() && es[k] == (
                    nodes[j].id,
                    nodes[j].inputs@[a],
                );
            assert(ids[j] == nodes[j].id);
        }
    }

    // Build adjacency and indegree maps
    let mut indeg: HashMap<NodeId, usize> = HashMap::new();
    let mut adj: HashMap<NodeId, Vec<NodeId>> = HashMap::new();

    let mut j: usize = 0;
    while j < model.nodes.len()
        invariant
            nodes == model.nodes@,
            ids == node_ids(nodes),
            j <= nodes.len(),
            forall|m: NodeId| #[trigger] indeg@.contains_key(m) <==> ids.take(j as int).contains(m),
            forall|m: NodeId| #[trigger] adj@.contains_key(m) <==> ids.take(j as int).contains(m),
            forall|m: NodeId| #[trigger] indeg@.contains_key(m) ==> indeg@[m] == 0,
            forall|m: NodeId| #[trigger] adj@.contains_key(m) ==> adj@[m]@ == Seq::<NodeId>::empty(),
        decreases nodes.len() - j,
    {
        let id = model.nodes[j].id;
        indeg.insert(id, 0);
        adj.insert(id, Vec::new());
        proof {
            assert(ids[j as int] == id);
            assert forall|m: NodeId| ids.take(j + 1).contains(m) == (ids.take(j as int).contains(m) || m == id) by {
                if ids.take(j as int).contains(m) {
                    let k = choose|k: int| 0 <= k < j && #[trigger] ids.take(j as int)[k] == m;
                    assert(ids.take(j + 1)[k] == m);
                }
                if m == id {
                    assert(ids.take(j + 1)[j as int] == id);
                }
                if ids.take(j + 1).contains(m) {
                    let k = choose|k: int| 0 <= k < j + 1 && #[trigger] ids.take(j + 1)[k] == m;
                    if k < j {
                        assert(ids.take(j as int)[k] == m);
                    }
                }
            }
        }
        j = j + 1;
    }
    proof {
        assert(ids.take(nodes.len() as int) =~= ids);
        assert(indeg@.dom() =~= d);
        assert(adj@.dom() =~= d);
        assert forall|m: NodeId| d.contains(m) implies indeg@[m] == pending(
            Seq::empty(),
            m,
            Set::empty(),
        ) by {}
        assert forall|m: NodeId| d.contains(m) implies adj@[m]@ == targets_from(Seq::empty(), m) by {}
    }

    let ghost mut seen: Seq<(NodeId, NodeId)> = Seq::empty();
    let mut j: usize = 0;
    while j < model.nodes.len()
        invariant
            nodes == model.nodes@,
            ids == node_ids(nodes),
            d == ids.to_set(),
            es == edges(nodes),
            es.len() <= usize::MAX,
            j <= nodes.len(),
            seen == edges(nodes.take(j as int)),
            indeg@.dom() == d,
            adj@.dom() == d,
            forall|m: NodeId| d.contains(m) ==> #[trigger] indeg@[m] == pending(seen, m, Set::empty()),
            forall|m: NodeId| d.contains(m) ==> #[trigger] adj@[m]@ == targets_from(seen, m),
        decreases nodes.len() - j,
    {
        let n = &model.nodes[j];
        let ghost before = seen;
        proof {
            lemma_edges_prefix(nodes, j as int);
        }
        let mut a: usize = 0;
        while a < n.inputs.len()
            invariant
                nodes == model.nodes@,
                d == ids.to_set(),
                es.len() <= usize::MAX,
                j < nodes.len(),
                *n == nodes[j as int],
                a <= n.inputs@.len(),
                before == edges(nodes.take(j as int)),
                before.len() + n.inputs@.len() <= es.len(),
                seen == before + node_edges(*n).take(a as int),
                indeg@.dom() == d,
                adj@.dom() == d,
                forall|m: NodeId| d.contains(m) ==> #[trigger] indeg@[m] == pending(seen, m, Set::empty()),
                forall|m: NodeId| d.contains(m) ==> #[trigger] adj@[m]@ == targets_from(seen, m),
            decreases n.inputs@.len() - a,
        {
            let inp = n.inputs[a];
            let ghost e = (n.id, inp);
            proof {
                assert(node_edges(*n).take(a + 1) =~= node_edges(*n).take(a as int).push(e));
                assert forall|m: NodeId| d.contains(m) implies pending(seen.push(e), m, Set::empty())
                    == #[trigger] pending(seen, m, Set::empty()) + if e.0 == m { 1nat } else { 0nat }
                    && targets_from(seen.push(e), m) == targets_from(seen, m) + if e.1 == m {
                        seq![e.0]
                    } else {
                        Seq::empty()
                    } by {
                    lemma_pending_push(seen, e, m, Set::empty());
                }
                lemma_pending_bound(seen, n.id, Set::empty());
            }
            // incoming edge from inp -> n.id
            if let Some(entry) = indeg.get(&n.id) {
                let next = *entry + 1;
                indeg.insert(n.id, next);
            }
            if let Some(mut vec) = adj.remove(&inp) {
                vec.push(n.id);
                adj.insert(inp, vec);
            }
            proof {
                let old_seen = seen;
                seen = seen.push(e);
                assert forall|m: NodeId| d.contains(m) implies #[trigger] adj@[m]@ == targets_from(seen, m) by {
                    lemma_pending_push(old_seen, e, m, Set::empty());
                    if m != inp {
                        assert(targets_from(seen, m) =~= targets_from(old_seen, m));
                    } else {
                        assert(targets_from(seen, m) =~= targets_from(old_seen, m).push(n.id));
                    }
                }
            }
            a = a + 1;
        }
        proof {
            assert(node_edges(*n).take(n.inputs@.len() as int) =~= node_edges(*n));
        }
        j = j + 1;
    }
    proof {
        assert(nodes.take(nodes.len() as int) =~= nodes);
    }

    let mut q: VecDeque<NodeId> = VecDeque::new();
    let walk = indeg.iter();
    let ghost kv = walk.remaining();
    let ghost mut pos: Seq<int> = Seq::empty();
    assert(kv.no_duplicates());
    for entry in it: walk
        invariant
            indeg@.dom() == d,
            kv == vstd::std_specs::hash::spec_hash_map_iter(&indeg).remaining(),
            kv.no_duplicates(),
            it.seq() == kv,
            forall|x: NodeId| #[trigger] q@.contains(x) ==> d.contains(x) && indeg@[x] == 0,
            q@.no_duplicates(),
            pos.len() == q@.len(),
            forall|i: int| 0 <= i < q@.len() ==> 0 <= #[trigger] pos[i] < it.index() && *kv[pos[i]].0 == q@[i],
            forall|k: int| 0 <= k < it.index() && *(#[trigger] kv[k]).1 == 0 ==> q@.contains(*kv[k].0),
    {
        let (id, deg) = entry;
        let ghost idx = it.index();
        assert(entry == kv[idx]);
        assert(indeg@.contains_key(*kv[idx].0));
        if *deg == 0 {
            let ghost old_q = q@;
            proof {
                assert forall|i: int| 0 <= i < q@.len() implies q@[i] != *id by {
                    let k = pos[i];
                    assert(indeg@.contains_key(*kv[k].0));
                    if q@[i] == *id {
                        assert(kv[k] == kv[idx]);
                    }
                }
            }
            q.push_back(*id);
            proof {
                pos = pos.push(idx);
                assert forall|x: NodeId| #[trigger] q@.contains(x) implies d.contains(x) && indeg@[x] == 0 by {
                    let i = choose|i: int| 0 <= i < q@.len() && q@[i] == x;
                    if i < old_q.len() {
                        assert(old_q[i] == x);
                        assert(old_q.contains(x));
                    }
                }
                assert forall|k: int| 0 <= k < idx + 1 && *(#[trigger] kv[k]).1 == 0 implies q@.contains(*kv[k].0) by {
                    if k < idx {
                        let i = choose|i: int| 0 <= i < old_q.len() && old_q[i] == *kv[k].0;
                        assert(q@[i] == *kv[k].0);
                    } else {
                        assert(q@[q@.len() - 1] == *kv[k].0);
                    }
                }
            }
        }
    }

    proof {
        assert forall|m: NodeId| d.contains(m) && indeg@[m] == 0 implies #[trigger] q@.contains(m) by {
            assert(indeg@.contains_key(m));
            assert(kv.contains((&m, &indeg@[m])));
            let k = choose|k: int| 0 <= k < kv.len() && kv[k] == (&m, &indeg@[m]);
            assert(*kv[k].1 == 0);
        }
        assert forall|i: int| 0 <= i < q@.len() implies d.contains(#[trigger] q@[i]) by {
            assert(q@.contains(q@[i]));
        }
        assert forall|m: NodeId| d.contains(m) implies #[trigger] indeg@[m] == pending(es, m, Seq::<NodeId>::empty().to_set()) by {
            assert(Seq::<NodeId>::empty().to_set() =~= Set::<NodeId>::empty());
        }
    }

    let mut out: Vec<NodeId> = Vec::new();
    while q.len() > 0
        invariant
            nodes == model.nodes@,
            ids == node_ids(nodes),
            d == ids.to_set(),
            d.finite(),
            es == edges(nodes),
            forall|k: int| 0 <= k < es.len() ==> d.contains((#[trigger] es[k]).0),
            indeg@.dom() == d,
            adj@.dom() == d,
            forall|m: NodeId| d.contains(m) ==> #[trigger] adj@[m]@ == targets_from(es, m),
            forall|m: NodeId| d.contains(m) ==> #[trigger] indeg@[m] == pending(es, m, out@.to_set()),
            forall|m: NodeId| d.contains(m) ==> ((out@.contains(m) || q@.contains(m)) <==> #[trigger] indeg@[m] == 0),
            out@.no_duplicates(),
            q@.no_duplicates(),
            forall|m: NodeId| !(out@.contains(m) && q@.contains(m)),
            forall|i: int| 0 <= i < out@.len() ==> d.contains(#[trigger] out@[i]),
            forall|i: int| 0 <= i < q@.len() ==> d.contains(#[trigger] q@[i]),
            sources_before(es, out@),
        decreases d.len() - out@.len(),
    {
        let ghost q_pre = q@;
        let nid = q.pop_front().unwrap();
        let ghost old_out = out@;
        proof {
            assert(q_pre[0] == nid);
            assert(q_pre.contains(nid));
            assert forall|i: int| 0 <= i < q@.len() implies q@[i] != nid && #[trigger] q@[i] == q_pre[i + 1] by {}
            assert forall|m: NodeId| #[trigger] q@.contains(m) implies q_pre.contains(m) && m != nid by {
                let i = choose|i: int| 0 <= i < q@.len() && q@[i] == m;
                assert(q_pre[i + 1] == m);
            }
            assert forall|m: NodeId| #[trigger] q_pre.contains(m) && m != nid implies q@.contains(m) by {
                let i = choose|i: int| 0 <= i < q_pre.len() && q_pre[i] == m;
                assert(i != 0);
                assert(q@[i - 1] == m);
            }
            assert(indeg@[nid] == 0);
            assert(!old_out.contains(nid));
            lemma_pending_zero(es, nid, old_out.to_set());
        }
        out.push(nid);
        proof {
            assert(out@ == old_out.push(nid));
            assert forall|i: int| 0 <= i < out@.len() implies d.contains(#[trigger] out@[i]) by {
                if i < old_out.len() {
                    assert(out@[i] == old_out[i]);
                }
            }
            assert(out@.no_duplicates()) by {
                assert forall|i: int, k: int| 0 <= i < out@.len() && 0 <= k < out@.len() && i != k implies out@[i] != out@[k] by {
                    if i < old_out.len() && k < old_out.len() {
                        assert(out@[i] == old_out[i] && out@[k] == old_out[k]);
                    } else if i < old_out.len() {
                        assert(old_out.contains(out@[i]));
                    } else if k < old_out.len() {
                        assert(old_out.contains(out@[k]));
                    }
                }
            }
            lemma_unique_within(out@, d);
            assert(sources_before(es, out@)) by {
                assert forall|k: int, i: int|
                    0 <= k < out@.len() && 0 <= i < es.len() && (#[trigger] es[i]).0 == #[trigger] out@[k]
                        implies out@.take(k).contains(es[i].1) by {
                    if k < old_out.len() {
                        assert(out@.take(k) =~= old_out.take(k));
                        assert(out@[k] == old_out[k]);
                    } else {
                        assert(out@.take(k) =~= old_out);
                        assert(old_out.to_set().contains(es[i].1));
                    }
                }
            }
            assert forall|m: NodeId| #[trigger] out@.contains(m) == (old_out.contains(m) || m == nid) by {
                if out@.contains(m) {
                    let i = choose|i: int| 0 <= i < out@.len() && out@[i] == m;
                    if i < old_out.len() {
                        assert(old_out[i] == m);
                    }
                }
                if old_out.contains(m) {
                    let i = choose|i: int| 0 <= i < old_out.len() && old_out[i] == m;
                    assert(out@[i] == m);
                }
                if m == nid {
                    assert(out@[old_out.len() as int] == m);
                }
            }
            assert(out@.to_set() =~= old_out.to_set().insert(nid));
            assert forall|m: NodeId| d.contains(m) implies #[trigger] indeg@[m] == pending(es, m, out@.to_set())
                + occ(targets_from(es, nid), m) by {
                lemma_pending_split(es, m, old_out.to_set(), nid);
            }
        }
        if let Some(neigh) = adj.get(&nid) {
            proof {
                lemma_targets_within(es, nid, d);
                assert(neigh@.subrange(0, neigh@.len() as int) =~= neigh@);
            }
            let mut k: usize = 0;
            while k < neigh.len()
                invariant
                    d.finite(),
                    neigh@ == targets_from(es, nid),
                    forall|i: int| 0 <= i < neigh@.len() ==> d.contains(#[trigger] neigh@[i]),
                    k <= neigh@.len(),
                    indeg@.dom() == d,
                    forall|m: NodeId| d.contains(m) ==> #[trigger] indeg@[m] == pending(es, m, out@.to_set())
                        + occ(neigh@.subrange(k as int, neigh@.len() as int), m),
                    forall|m: NodeId| d.contains(m) ==> ((out@.contains(m) || q@.contains(m)) <==> #[trigger] indeg@[m] == 0),
                    q@.no_duplicates(),
                    forall|m: NodeId| !(out@.contains(m) && q@.contains(m)),
                    forall|i: int| 0 <= i < q@.len() ==> d.contains(#[trigger] q@[i]),
                decreases neigh@.len() - k,
            {
                let m = neigh[k];
                proof {
                    assert forall|x: NodeId| d.contains(x) implies #[trigger] occ(neigh@.subrange(k as int, neigh@.len() as int), x)
                        == occ(neigh@.subrange(k + 1, neigh@.len() as int), x) + if neigh@[k as int] == x { 1nat } else { 0nat } by {
                        lemma_occ_step(neigh@, k as int, x);
                    }
                    assert(d.contains(m));
                }
                if let Some(deg) = indeg.get(&m) {
                    let next = *deg - 1;
                    indeg.insert(m, next);
                    if next == 0 {
                        let ghost q_mid = q@;
                        q.push_back(m);
                        proof {
                            assert forall|x: NodeId| #[trigger] q@.contains(x) == (q_mid.contains(x) || x == m) by {
                                if q@.contains(x) {
                                    let i = choose|i: int| 0 <= i < q@.len() && q@[i] == x;
                                    if i < q_mid.len() {
                                        assert(q_mid[i] == x);
                                    }
                                }
                                if q_mid.contains(x) {
                                    let i = choose|i: int| 0 <= i < q_mid.len() && q_mid[i] == x;
                                    assert(q@[i] == x);
                                }
                                if x == m {
                                    assert(q@[q_mid.len() as int] == m);
                                }
                            }
                            assert forall|i: int| 0 <= i < q@.len() implies d.contains(#[trigger] q@[i]) by {
                                if i < q_mid.len() {
                                    assert(q@[i] == q_mid[i]);
                                }
                            }
                        }
                    }
                }
                k = k + 1;
            }
            proof {
                assert forall|x: NodeId| d.contains(x) implies #[trigger] indeg@[x] == pending(es, x, out@.to_set()) by {
                    assert(neigh@.subrange(neigh@.len() as int, neigh@.len() as int) =~= Seq::<NodeId>::empty());
                }
            }
        }
    }
    proof {
        assert forall|i: int| 0 <= i < out@.len() implies ids.contains(#[trigger] out@[i]) by {
            assert(d.contains(out@[i]));
        }
    }
    if out.len() == model.nodes.len() {
        proof {
            lemma_sorted_is_topological(nodes, out@);
        }
        Ok(out)
    } else {
        proof {
            reveal_strlit("cycle");
            if has_topological_order(nodes) {
                assert forall|m: NodeId|
                    ids.contains(m) && pending(es, m, out@.to_set()) == 0 implies #[trigger] out@.contains(m) by {
                    assert(d.contains(m));
                    assert(indeg@[m] == 0);
                }
                lemma_listing_complete(nodes, out@);
            }
        }
        Err("cycle")
    }
}

} // verus!
