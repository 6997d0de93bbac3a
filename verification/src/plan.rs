//! Turning the editable model into the sequence of `add_node` calls that
//! builds the runtime graph.

use std::collections::HashMap;
use vstd::prelude::*;
use crate::model::{first_with_id, lemma_first_with_id, topological_sort, GraphModel, NodeId, NodeKind, NodeModel};
use crate::order::{edges, has_topological_order, is_topological_order, node_ids, precedes};
use crate::text::{hyphenated, uuid_text};
use vstd::string::StringExecFns;

verus! {

/// Why a model could not be turned into a runtime graph.
#[derive(Clone, Copy, Debug, PartialEq, Eq, Structural)]
pub enum BuildError {
    /// The model has no topological order.
    Cycle,
    /// The order named an id that no node of the model has.
    NodeNotFound(NodeId),
    /// A node names an input that was not placed before it.
    InputNotFound(NodeId),
}

/// The text of a build error, as the renderer reports it.
pub open spec fn error_message(e: BuildError) -> Seq<char> {
    match e {
        BuildError::Cycle => "cycle in graph model"@,
        BuildError::NodeNotFound(id) => "node id "@ + hyphenated(id) + " not found"@,
        BuildError::InputNotFound(id) => "input id "@ + hyphenated(id) + " not found/earlier"@,
    }
}

impl BuildError {
    /// The error as text; ids are written in UUID form.
    pub fn message(&self) -> (text: String)
        ensures
            text@ == error_message(*self),
    {
        match self {
            BuildError::Cycle => String::from_str("cycle in graph model"),
            BuildError::NodeNotFound(id) => {
                let mut text = String::from_str("node id ");
                let id_text = uuid_text(*id);
                text.append(id_text.as_str());
                text.append(" not found");
                text
            },
            BuildError::InputNotFound(id) => {
                let mut text = String::from_str("input id ");
                let id_text = uuid_text(*id);
                text.append(id_text.as_str());
                text.append(" not found/earlier");
                text
            },
        }
    }
}

/// One `add_node` call: the kind of node to create and the indices of the
/// already-added nodes that feed it, in input-slot order.
#[derive(Clone, Debug)]
pub struct PlannedNode {
    pub kind: NodeKind,
    pub inputs: Vec<usize>,
}

/// A planned node as plain values.
pub open spec fn planned_view(p: PlannedNode) -> (NodeKind, Seq<usize>) {
    (p.kind, p.inputs@)
}

/// A plan as plain values.
pub open spec fn plan_view(plan: Seq<PlannedNode>) -> Seq<(NodeKind, Seq<usize>)> {
    plan.map_values(|p: PlannedNode| planned_view(p))
}

/// The last position of `x` in `placed`, if it occurs.
pub open spec fn last_position(placed: Seq<NodeId>, x: NodeId) -> Option<int>
    decreases placed.len(),
{
    if placed.len() == 0 {
        None
    } else if placed.last() == x {
        Some(placed.len() - 1)
    } else {
        last_position(placed.drop_last(), x)
    }
}

/// The runtime indices of `inputs`, looked up among the ids placed so far
/// (the latest placement of an id wins), or the first input not placed.
pub open spec fn resolve_inputs(inputs: Seq<NodeId>, placed: Seq<NodeId>) -> Result<Seq<usize>, NodeId>
    decreases inputs.len(),
{
    if inputs.len() == 0 {
        Ok(Seq::empty())
    } else {
        match resolve_inputs(inputs.drop_last(), placed) {
            Err(x) => Err(x),
            Ok(idx) => match last_position(placed, inputs.last()) {
                Some(p) => Ok(idx.push(p as usize)),
                None => Err(inputs.last()),
            },
        }
    }
}

/// The plan for the first `k` ids of `order`: each id's node (the first
/// node of the model with that id) with its inputs resolved against the
/// ids placed before it; or the first failure.
pub open spec fn plan_prefix(nodes: Seq<NodeModel>, order: Seq<NodeId>, k: nat) -> Result<
    Seq<(NodeKind, Seq<usize>)>,
    BuildError,
>
    decreases k,
{
    if k == 0 {
        Ok(Seq::empty())
    } else {
        match plan_prefix(nodes, order, (k - 1) as nat) {
            Err(e) => Err(e),
            Ok(done) => {
                let id = order[k - 1];
                match first_with_id(nodes, id) {
                    None => Err(BuildError::NodeNotFound(id)),
                    Some(j) => match resolve_inputs(nodes[j].inputs@, order.take(k - 1)) {
                        Err(x) => Err(BuildError::InputNotFound(x)),
                        Ok(idx) => Ok(done.push((nodes[j].kind, idx))),
                    },
                }
            },
        }
    }
}

proof fn lemma_last_position(placed: Seq<NodeId>, x: NodeId)
    ensures
        match last_position(placed, x) {
            Some(p) => 0 <= p < placed.len() && placed[p] == x && forall|i: int|
                p < i < placed.len() ==> placed[i] != x,
            None => !placed.contains(x),
        },
    decreases placed.len(),
{
    if placed.len() > 0 && placed.last() != x {
        let rest = placed.drop_last();
        lemma_last_position(rest, x);
        assert forall|i: int| 0 <= i < placed.len() - 1 implies placed[i] == #[trigger] rest[i] by {}
        match last_position(rest, x) {
            Some(p) => {
                assert forall|i: int| p < i < placed.len() implies placed[i] != x by {
                    if i < placed.len() - 1 {
                        assert(placed[i] == rest[i]);
                    }
                }
            },
            None => {
                if placed.contains(x) {
                    let i = choose|i: int| 0 <= i < placed.len() && placed[i] == x;
                    assert(rest[i] == x);
                }
            },
        }
    }
}

proof fn lemma_last_position_push(placed: Seq<NodeId>, id: NodeId, x: NodeId)
    ensures
        last_position(placed.push(id), x) == if x == id {
            Some(placed.len() as int)
        } else {
            last_position(placed, x)
        },
{
    assert(placed.push(id).drop_last() =~= placed);
}

/// Once a prefix of the inputs fails to resolve, every longer prefix fails
/// the same way.
proof fn lemma_resolve_err_sticks(inputs: Seq<NodeId>, placed: Seq<NodeId>, i: int, n: int)
    requires
        0 <= i <= n <= inputs.len(),
        resolve_inputs(inputs.take(i), placed) is Err,
    ensures
        resolve_inputs(inputs.take(n), placed) == resolve_inputs(inputs.take(i), placed),
    decreases n - i,
{
    if n > i {
        lemma_resolve_err_sticks(inputs, placed, i, n - 1);
        assert(inputs.take(n).drop_last() =~= inputs.take(n - 1));
    }
}

/// Resolves the node's inputs against the ids placed so far; the map
/// sends each placed id to its latest position.
fn resolve(
    inputs: &Vec<NodeId>,
    id_to_index: &HashMap<NodeId, usize>,
    placed: Ghost<Seq<NodeId>>,
) -> (result: Result<Vec<usize>, NodeId>)
    requires
        forall|x: NodeId| #[trigger] id_to_index@.contains_key(x) == placed@.contains(x),
        forall|x: NodeId| placed@.contains(x) ==> last_position(placed@, x) == Some(
            #[trigger] id_to_index@[x] as int,
        ),
    ensures
        match result {
            Ok(v) => resolve_inputs(inputs@, placed@) == Ok::<Seq<usize>, NodeId>(v@),
            Err(x) => resolve_inputs(inputs@, placed@) == Err::<Seq<usize>, NodeId>(x),
        },
{
    broadcast use vstd::std_specs::hash::group_hash_axioms;

    let mut input_indices: Vec<usize> = Vec::new();
    let mut a: usize = 0;
    while a < inputs.len()
        invariant
            a <= inputs@.len(),
            forall|x: NodeId| #[trigger] id_to_index@.contains_key(x) == placed@.contains(x),
            forall|x: NodeId| placed@.contains(x) ==> last_position(placed@, x) == Some(
                #[trigger] id_to_index@[x] as int,
            ),
            resolve_inputs(inputs@.take(a as int), placed@) == Ok::<Seq<usize>, NodeId>(input_indices@),
        decreases inputs@.len() - a,
    {
        let inp_id = inputs[a];
        proof {
            assert(inputs@.take(a + 1).drop_last() =~= inputs@.take(a as int));
            lemma_last_position(placed@, inp_id);
        }
        match id_to_index.get(&inp_id) {
            Some(idx) => {
                input_indices.push(*idx);
            },
            None => {
                proof {
                    lemma_resolve_err_sticks(inputs@, placed@, a + 1, inputs@.len() as int);
                    assert(inputs@.take(inputs@.len() as int) =~= inputs@);
                }
                return Err(inp_id);
            },
        }
        a = a + 1;
    }
    proof {
        assert(inputs@.take(inputs@.len() as int) =~= inputs@);
    }
    Ok(input_indices)
}

/// Builds the plan for `order`: for each id in turn, the first node of the
/// model with that id, its inputs mapped to the indices at which their ids
/// were placed earlier. The `k`-th planned node is the node that the
/// `k`-th `add_node` call creates.
pub fn plan_from_order(model: &GraphModel, order: &Vec<NodeId>) -> (result: Result<
    Vec<PlannedNode>,
    BuildError,
>)
    ensures
        match result {
            Ok(plan) => plan_prefix(model.nodes@, order@, order@.len()) == Ok::<
                Seq<(NodeKind, Seq<usize>)>,
                BuildError,
            >(plan_view(plan@)),
            Err(e) => plan_prefix(model.nodes@, order@, order@.len()) == Err::<
                Seq<(NodeKind, Seq<usize>)>,
                BuildError,
            >(e),
        },
{
    broadcast use vstd::std_specs::hash::group_hash_axioms;

    let mut id_to_index: HashMap<NodeId, usize> = HashMap::new();
    let mut plan: Vec<PlannedNode> = Vec::new();
    proof {
        assert(plan_view(plan@) =~= Seq::<(NodeKind, Seq<usize>)>::empty());
    }
    let mut k: usize = 0;
    while k < order.len()
        invariant
            k <= order@.len(),
            forall|x: NodeId| #[trigger] id_to_index@.contains_key(x) == order@.take(k as int).contains(x),
            forall|x: NodeId| order@.take(k as int).contains(x) ==> last_position(order@.take(k as int), x) == Some(
                #[trigger] id_to_index@[x] as int,
            ),
            plan_prefix(model.nodes@, order@, k as nat) == Ok::<Seq<(NodeKind, Seq<usize>)>, BuildError>(
                plan_view(plan@),
            ),
        decreases order@.len() - k,
    {
        let id = order[k];
        proof {
            lemma_first_with_id(model.nodes@, id);
        }
        let node_model = match model.find(&id) {
            Some(n) => n,
            None => {
                proof {
                    lemma_plan_err_sticks(model.nodes@, order@, (k + 1) as nat, order@.len());
                }
                return Err(BuildError::NodeNotFound(id));
            },
        };
        // map input ids to indices
        let input_indices = match resolve(&node_model.inputs, &id_to_index, Ghost(order@.take(k as int))) {
            Ok(v) => v,
            Err(inp_id) => {
                proof {
                    lemma_plan_err_sticks(model.nodes@, order@, (k + 1) as nat, order@.len());
                }
                return Err(BuildError::InputNotFound(inp_id));
            },
        };
        let ghost prev = plan@;
        plan.push(PlannedNode { kind: node_model.kind, inputs: input_indices });
        id_to_index.insert(id, k);
        proof {
            let placed = order@.take(k as int);
            assert(order@.take(k + 1) =~= placed.push(id));
            assert(plan_view(plan@) =~= plan_view(prev).push((node_model.kind, input_indices@)));
            assert forall|x: NodeId| #[trigger] id_to_index@.contains_key(x) == order@.take(k + 1).contains(x) by {
                if placed.contains(x) {
                    let i = choose|i: int| 0 <= i < placed.len() && placed[i] == x;
                    assert(order@.take(k + 1)[i] == x);
                }
                if x == id {
                    assert(order@.take(k + 1)[k as int] == x);
                }
                if order@.take(k + 1).contains(x) {
                    let i = choose|i: int| 0 <= i < k + 1 && #[trigger] order@.take(k + 1)[i] == x;
                    if i < k {
                        assert(placed[i] == x);
                    }
                }
            }
            assert forall|x: NodeId| order@.take(k + 1).contains(x) implies last_position(order@.take(k + 1), x) == Some(
                #[trigger] id_to_index@[x] as int,
            ) by {
                lemma_last_position_push(placed, id, x);
            }
        }
        k = k + 1;
    }
    proof {
        assert(order@.take(order@.len() as int) =~= order@);
    }
    Ok(plan)
}

/// Once a prefix of the plan fails, the whole plan fails the same way.
proof fn lemma_plan_err_sticks(nodes: Seq<NodeModel>, order: Seq<NodeId>, i: nat, n: nat)
    requires
        i <= n,
        plan_prefix(nodes, order, i) is Err,
    ensures
        plan_prefix(nodes, order, n) == plan_prefix(nodes, order, i),
    decreases n - i,
{
    if n > i {
        lemma_plan_err_sticks(nodes, order, i, (n - 1) as nat);
    }
}

/// Inputs that have all been placed resolve to their latest positions.
proof fn lemma_resolve_placed(inputs: Seq<NodeId>, placed: Seq<NodeId>)
    requires
        placed.len() <= usize::MAX,
        forall|a: int| 0 <= a < inputs.len() ==> placed.contains(#[trigger] inputs[a]),
    ensures
        resolve_inputs(inputs, placed) matches Ok(idx) && idx.len() == inputs.len() && forall|a: int|
            0 <= a < inputs.len() ==> last_position(placed, #[trigger] inputs[a]) == Some(
                idx[a] as int,
            ),
    decreases inputs.len(),
{
    if inputs.len() > 0 {
        let init = inputs.drop_last();
        assert forall|a: int| 0 <= a < init.len() implies placed.contains(#[trigger] init[a]) by {
            assert(init[a] == inputs[a]);
        }
        lemma_resolve_placed(init, placed);
        lemma_last_position(placed, inputs.last());
        assert(placed.contains(inputs[inputs.len() - 1]));
        let idx = resolve_inputs(init, placed)->Ok_0;
        let p = last_position(placed, inputs.last())->Some_0;
        assert forall|a: int| 0 <= a < inputs.len() implies last_position(placed, #[trigger] inputs[a]) == Some(
            idx.push(p as usize)[a] as int,
        ) by {
            if a < init.len() {
                assert(init[a] == inputs[a]);
            }
        }
    }
}

/// In a duplicate-free sequence the latest position of an entry is its
/// only position.
proof fn lemma_last_position_unique(placed: Seq<NodeId>, p: int)
    requires
        placed.no_duplicates(),
        0 <= p < placed.len(),
    ensures
        last_position(placed, placed[p]) == Some(p),
{
    lemma_last_position(placed, placed[p]);
}

/// Planning along a topological order never fails: the `k`-th planned
/// node creates the node whose id stands at position `k` of the order, and
/// each of its inputs points at the position of that input's id, which
/// lies before `k`.
pub proof fn lemma_topological_plan(nodes: Seq<NodeModel>, order: Seq<NodeId>, k: nat)
    requires
        is_topological_order(nodes, order),
        nodes.len() <= usize::MAX,
        k <= order.len(),
    ensures
        plan_prefix(nodes, order, k) matches Ok(p) && p.len() == k && forall|i: int|
            0 <= i < k ==> planned_for(nodes, order, i, #[trigger] p[i]),
    decreases k,
{
    if k > 0 {
        lemma_topological_plan(nodes, order, (k - 1) as nat);
        let done = plan_prefix(nodes, order, (k - 1) as nat)->Ok_0;
        let id = order[k - 1];
        assert(node_ids(nodes).contains(id));
        lemma_first_with_id(nodes, id);
        let jj = choose|jj: int| 0 <= jj < nodes.len() && node_ids(nodes)[jj] == id;
        assert(nodes[jj].id == id);
        let j = first_with_id(nodes, id)->Some_0;
        let placed = order.take(k - 1);
        let ins = nodes[j].inputs@;
        assert forall|a: int| 0 <= a < ins.len() implies placed.contains(#[trigger] ins[a]) by {
            assert(precedes(order, nodes[j].inputs@[a], nodes[j].id));
            let (p, q) = choose|p: int, q: int|
                0 <= p < q < order.len() && order[p] == ins[a] && order[q] == id;
            assert(q == k - 1);
            assert(placed[p] == ins[a]);
        }
        lemma_resolve_placed(ins, placed);
        let idx = resolve_inputs(ins, placed)->Ok_0;
        assert(placed.no_duplicates());
        assert forall|a: int| 0 <= a < ins.len() implies (#[trigger] idx[a]) < k - 1 && order[idx[a] as int] == ins[a] by {
            lemma_last_position(placed, ins[a]);
        }
        let p = done.push((nodes[j].kind, idx));
        assert(planned_for(nodes, order, k - 1, p[k - 1]));
        assert forall|i: int| 0 <= i < k implies planned_for(nodes, order, i, #[trigger] p[i]) by {
            if i < k - 1 {
                assert(p[i] == done[i]);
            }
        }
    }
}

/// `entry` creates the node with id `order[k]` and feeds it from the
/// positions, all before `k`, at which the order holds its inputs' ids.
pub open spec fn planned_for(
    nodes: Seq<NodeModel>,
    order: Seq<NodeId>,
    k: int,
    entry: (NodeKind, Seq<usize>),
) -> bool {
    exists|j: int|
        0 <= j < nodes.len() && nodes[j].id == order[k] && first_with_id(nodes, order[k]) == Some(j)
            && entry.0 == nodes[j].kind && entry.1.len() == nodes[j].inputs@.len() && forall|a: int|
            0 <= a < entry.1.len() ==> (#[trigger] entry.1[a]) < k && order[entry.1[a] as int]
                == nodes[j].inputs@[a]
}

/// Plans the runtime graph for a model: sorts it topologically, then
/// creates the nodes in that order, each fed by nodes created before it.
///
/// The plan exists exactly when the model has a topological order; a
/// model without one is refused as a cycle. Every planned node's inputs
/// point at earlier planned nodes, so adding the plan to an empty runtime
/// graph in order always meets `Graph::add_node`'s requirement.
pub fn build_plan(model: &GraphModel) -> (result: Result<Vec<PlannedNode>, BuildError>)
    requires
        edges(model.nodes@).len() <= usize::MAX,
    ensures
        result is Ok <==> has_topological_order(model.nodes@),
        result matches Err(e) ==> e == BuildError::Cycle,
        result matches Ok(plan) ==> {
            &&& plan@.len() == model.nodes@.len()
            &&& exists|order: Seq<NodeId>|
                is_topological_order(model.nodes@, order) && forall|k: int|
                    0 <= k < plan@.len() ==> planned_for(
                        model.nodes@,
                        order,
                        k,
                        #[trigger] planned_view(plan@[k]),
                    )
            &&& forall|k: int, a: int|
                0 <= k < plan@.len() && 0 <= a < plan@[k].inputs@.len() ==> #[trigger] plan@[k].inputs@[a]
                    < k
        },
{
    let order = match topological_sort(model) {
        Ok(order) => order,
        Err(_) => {
            return Err(BuildError::Cycle);
        },
    };
    let result = plan_from_order(model, &order);
    proof {
        lemma_topological_plan(model.nodes@, order@, order@.len());
    }
    match result {
        Ok(plan) => {
            proof {
                let p = plan_prefix(model.nodes@, order@, order@.len())->Ok_0;
                assert(p == plan_view(plan@));
                assert forall|k: int| 0 <= k < plan@.len() implies planned_for(
                    model.nodes@,
                    order@,
                    k,
                    #[trigger] planned_view(plan@[k]),
                ) by {
                    assert(planned_view(plan@[k]) == p[k]);
                }
                assert forall|k: int, a: int|
                    0 <= k < plan@.len() && 0 <= a < plan@[k].inputs@.len() implies #[trigger] plan@[k].inputs@[a]
                        < k by {
                    assert(planned_view(plan@[k]) == p[k]);
                    assert(planned_for(model.nodes@, order@, k, p[k]));
                    assert(p[k].1[a] == plan@[k].inputs@[a]);
                }
            }
            Ok(plan)
        },
        Err(e) => Err(e),
    }
}

} // verus!
