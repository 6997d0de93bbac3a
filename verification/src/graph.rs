//! The runtime render graph: node slots in insertion order, each with the
//! indices of the earlier nodes that feed it and its own output target.
//!
//! The graph is generic over what the renderer keeps per node (`N`, the
//! node itself), per output (`T`, the offscreen texture and its view) and
//! the texture format (`F`); it decides indices, wiring, sizes and the
//! order of execution, and never looks inside those values.

use vstd::prelude::*;
use crate::plan::PlannedNode;

verus! {

struct NodeSlot<N, T> {
    node: N,
    inputs: Vec<usize>,
    target: T,
}

/// Owns every node's output target and decides the order nodes run in.
///
/// Nodes execute in insertion order, and `inputs` must reference nodes
/// added earlier, so the graph is a DAG by construction: no cycle can be
/// created.
pub struct Graph<N, T, F> {
    nodes: Vec<NodeSlot<N, T>>,
    format: F,
    size: (u32, u32),
}

/// One step of executing the graph: run node `node`, reading the outputs
/// of `inputs` in order, and write either its own target or, for the last
/// node, the final output (the screen).
#[derive(Clone, Debug)]
pub struct ExecStep {
    pub node: usize,
    pub inputs: Vec<usize>,
    pub writes_final: bool,
}

/// The extent of an output target for a surface of `size`: each side at
/// least one pixel.
pub open spec fn spec_target_extent(size: (u32, u32)) -> (u32, u32) {
    (if size.0 >= 1 { size.0 } else { 1 }, if size.1 >= 1 { size.1 } else { 1 })
}

/// A target's width follows the surface's width and its height the
/// surface's height: a drawable size is kept as it is, and a zero side
/// becomes one pixel.
pub proof fn lemma_target_extent(size: (u32, u32))
    ensures
        spec_target_extent(size).0 >= 1 && spec_target_extent(size).1 >= 1,
        size.0 >= 1 ==> spec_target_extent(size).0 == size.0,
        size.1 >= 1 ==> spec_target_extent(size).1 == size.1,
        size.0 == 0 ==> spec_target_extent(size).0 == 1,
        size.1 == 0 ==> spec_target_extent(size).1 == 1,
        size.0 >= 1 && size.1 >= 1 ==> spec_target_extent(size) == size,
{
}

/// The extent of an output target for a surface of `size`: each side at
/// least one pixel, so a minimised window still has valid textures.
pub fn target_extent(size: (u32, u32)) -> (extent: (u32, u32))
    ensures
        extent == spec_target_extent(size),
        extent.0 >= 1 && extent.1 >= 1,
        size.0 >= 1 ==> extent.0 == size.0,
        size.1 >= 1 ==> extent.1 == size.1,
        size.0 == 0 ==> extent.0 == 1,
        size.1 == 0 ==> extent.1 == 1,
{
    proof {
        lemma_target_extent(size);
    }
    (if size.0 >= 1 { size.0 } else { 1 }, if size.1 >= 1 { size.1 } else { 1 })
}

impl<N, T, F> Graph<N, T, F> {
    /// Number of nodes.
    pub closed spec fn spec_len(&self) -> nat {
        self.nodes@.len()
    }

    /// The node at index `i`.
    pub closed spec fn node_at(&self, i: int) -> N {
        self.nodes@[i].node
    }

    /// The indices feeding node `i`, in input-slot order.
    pub closed spec fn inputs_at(&self, i: int) -> Seq<usize> {
        self.nodes@[i].inputs@
    }

    /// The output target of node `i`.
    pub closed spec fn target_at(&self, i: int) -> T {
        self.nodes@[i].target
    }

    /// The texture format every target is made with.
    pub closed spec fn format_view(&self) -> F {
        self.format
    }

    /// The size targets are made for.
    pub closed spec fn size_view(&self) -> (u32, u32) {
        self.size
    }

    /// Every node's inputs are nodes added before it.
    pub open spec fn wf(&self) -> bool {
        forall|i: int, a: int|
            0 <= i < self.spec_len() && 0 <= a < self.inputs_at(i).len() ==> #[trigger] self.inputs_at(
                i,
            )[a] < i
    }

    pub fn new(format: F, size: (u32, u32)) -> (graph: Self)
        ensures
            graph.wf(),
            graph.spec_len() == 0,
            graph.format_view() == format,
            graph.size_view() == size,
    {
        Graph { nodes: Vec::new(), format, size }
    }

    /// Builds the runtime graph a plan describes: node `k` is made of
    /// `parts[k]` (the node and its output target) and is fed by the
    /// indices of plan entry `k`, exactly as if each entry were added with
    /// `add_node` in order.
    pub fn from_plan(format: F, size: (u32, u32), plan: Vec<PlannedNode>, parts: Vec<(N, T)>) -> (graph: Self)
        requires
            parts@.len() == plan@.len(),
            forall|k: int, a: int|
                0 <= k < plan@.len() && 0 <= a < plan@[k].inputs@.len() ==> #[trigger] plan@[k].inputs@[a]
                    < k,
        ensures
            graph.wf(),
            graph.spec_len() == plan@.len(),
            graph.format_view() == format,
            graph.size_view() == size,
            forall|k: int|
                0 <= k < plan@.len() ==> graph.node_at(k) == (#[trigger] parts@[k]).0 && graph.target_at(k)
                    == parts@[k].1 && graph.inputs_at(k) == plan@[k].inputs@,
    {
        let ghost all_plan = plan@;
        let ghost all_parts = parts@;
        let n = plan.len();
        let mut plan = plan;
        let mut parts = parts;
        let mut graph = Graph::new(format, size);
        let mut i: usize = 0;
        while i < n
            invariant
                n == all_plan.len(),
                all_parts.len() == n,
                i <= n,
                plan@ == all_plan.subrange(i as int, n as int),
                parts@ == all_parts.subrange(i as int, n as int),
                forall|k: int, a: int|
                    0 <= k < all_plan.len() && 0 <= a < all_plan[k].inputs@.len() ==> #[trigger] all_plan[k].inputs@[a]
                        < k,
                graph.wf(),
                graph.spec_len() == i,
                graph.format_view() == format,
                graph.size_view() == size,
                forall|k: int|
                    0 <= k < i ==> graph.node_at(k) == (#[trigger] all_parts[k]).0 && graph.target_at(k)
                        == all_parts[k].1 && graph.inputs_at(k) == all_plan[k].inputs@,
            decreases n - i,
        {
            let entry = plan.remove(0);
            let (node, target) = parts.remove(0);
            proof {
                assert(entry == all_plan[i as int]);
                assert(parts@ =~= all_parts.subrange(i + 1, n as int));
                assert(plan@ =~= all_plan.subrange(i + 1, n as int));
            }
            graph.add_node(node, entry.inputs, target);
            i = i + 1;
        }
        graph
    }

    /// Number of nodes.
    pub fn len(&self) -> (n: usize)
        ensures
            n == self.spec_len(),
    {
        self.nodes.len()
    }

    /// The texture format every target is made with.
    pub fn format(&self) -> (format: &F)
        ensures
            *format == self.format_view(),
    {
        &self.format
    }

    /// The size targets are made for.
    pub fn size(&self) -> (size: (u32, u32))
        ensures
            size == self.size_view(),
    {
        self.size
    }

    /// The node at index `i`.
    pub fn node(&self, i: usize) -> (node: &N)
        requires
            i < self.spec_len(),
        ensures
            *node == self.node_at(i as int),
    {
        &self.nodes[i].node
    }

    /// The output target of node `i`.
    pub fn target(&self, i: usize) -> (target: &T)
        requires
            i < self.spec_len(),
        ensures
            *target == self.target_at(i as int),
    {
        &self.nodes[i].target
    }

    /// The indices feeding node `i`, in input-slot order.
    pub fn inputs(&self, i: usize) -> (inputs: &Vec<usize>)
        requires
            i < self.spec_len(),
        ensures
            inputs@ == self.inputs_at(i as int),
    {
        &self.nodes[i].inputs
    }

    /// Adds a node with its output target. `inputs` are indices returned
    /// by earlier `add_node` calls; those nodes' outputs become this node's
    /// inputs, in the order given. Returns the new node's index, which is
    /// the number of nodes before the call; no other node moves.
    pub fn add_node(&mut self, node: N, inputs: Vec<usize>, target: T) -> (index: usize)
        requires
            old(self).wf(),
            forall|a: int| 0 <= a < inputs@.len() ==> #[trigger] inputs@[a] < old(self).spec_len(),
        ensures
            final(self).wf(),
            index == old(self).spec_len(),
            final(self).spec_len() == old(self).spec_len() + 1,
            final(self).node_at(index as int) == node,
            final(self).inputs_at(index as int) == inputs@,
            final(self).target_at(index as int) == target,
            forall|i: int|
                0 <= i < old(self).spec_len() ==> final(self).node_at(i) == old(self).node_at(i)
                    && final(self).inputs_at(i) == old(self).inputs_at(i) && final(self).target_at(i)
                    == old(self).target_at(i),
            final(self).format_view() == old(self).format_view(),
            final(self).size_view() == old(self).size_view(),
    {
        let ghost before = self.nodes@;
        let ghost ins = inputs@;
        self.nodes.push(NodeSlot { node, inputs, target });
        proof {
            assert forall|i: int, a: int|
                0 <= i < self.spec_len() && 0 <= a < self.inputs_at(i).len() implies #[trigger] self.inputs_at(
                i,
            )[a] < i by {
                if i < before.len() {
                    assert(self.nodes@[i] == before[i]);
                    assert(self.inputs_at(i) == old(self).inputs_at(i));
                    assert(old(self).inputs_at(i)[a] < i);
                } else {
                    assert(self.inputs_at(i) == ins);
                    assert(ins[a] < before.len());
                }
            }
        }
        self.nodes.len() - 1
    }

    /// Takes the new surface size and, for every node in order, the target
    /// made for it at that size. Nodes and wiring stay as they are.
    pub fn resize(&mut self, size: (u32, u32), targets: Vec<T>)
        requires
            old(self).wf(),
            targets@.len() == old(self).spec_len(),
        ensures
            final(self).wf(),
            final(self).size_view() == size,
            final(self).format_view() == old(self).format_view(),
            final(self).spec_len() == old(self).spec_len(),
            forall|i: int|
                0 <= i < old(self).spec_len() ==> final(self).node_at(i) == old(self).node_at(i)
                    && final(self).inputs_at(i) == old(self).inputs_at(i) && final(self).target_at(i)
                    == targets@[i],
    {
        self.size = size;
        let ghost before = self.nodes@;
        let mut targets = targets;
        let ghost given = targets@;
        let mut i: usize = self.nodes.len();
        while i > 0
            invariant
                i <= before.len(),
                self.nodes@.len() == before.len(),
                given.len() == before.len(),
                targets@ == given.take(i as int),
                self.size == size,
                self.format == old(self).format,
                before == old(self).nodes@,
                forall|k: int|
                    0 <= k < before.len() ==> (#[trigger] self.nodes@[k]).node == before[k].node
                        && self.nodes@[k].inputs@ == before[k].inputs@,
                forall|k: int| i <= k < before.len() ==> (#[trigger] self.nodes@[k]).target == given[k],
                forall|k: int| 0 <= k < i ==> (#[trigger] self.nodes@[k]).target == before[k].target,
            decreases i,
        {
            i = i - 1;
            let target = targets.pop().unwrap();
            proof {
                assert(target == given[i as int]);
                assert(targets@ =~= given.take(i as int));
            }
            self.nodes[i].target = target;
        }
        proof {
            assert forall|k: int, a: int|
                0 <= k < self.spec_len() && 0 <= a < self.inputs_at(k).len() implies #[trigger] self.inputs_at(
                k,
            )[a] < k by {
                assert(self.nodes@[k].inputs@ == before[k].inputs@);
                assert(old(self).inputs_at(k) == before[k].inputs@);
            }
        }
    }

    /// The order of execution: every node in insertion order, each reading
    /// the outputs of its inputs. The last node added writes straight to
    /// the final output (the screen) instead of its own target; everything
    /// upstream of it renders into its own target first. Since inputs are
    /// earlier nodes, every node's inputs have run before it.
    pub fn execution_plan(&self) -> (steps: Vec<ExecStep>)
        requires
            self.wf(),
        ensures
            steps@.len() == self.spec_len(),
            forall|k: int|
                0 <= k < steps@.len() ==> (#[trigger] steps@[k]).node == k && steps@[k].inputs@
                    == self.inputs_at(k) && steps@[k].writes_final == (k == self.spec_len() - 1),
            forall|k: int, a: int|
                0 <= k < steps@.len() && 0 <= a < steps@[k].inputs@.len() ==> #[trigger] steps@[k].inputs@[a]
                    < k,
    {
        let mut steps: Vec<ExecStep> = Vec::new();
        let n = self.nodes.len();
        if n == 0 {
            return steps;
        }
        let last = n - 1;
        let mut i: usize = 0;
        while i < n
            invariant
                n == self.spec_len(),
                last == n - 1,
                i <= n,
                self.wf(),
                steps@.len() == i,
                forall|k: int|
                    0 <= k < i ==> (#[trigger] steps@[k]).node == k && steps@[k].inputs@
                        == self.inputs_at(k) && steps@[k].writes_final == (k == last),
            decreases n - i,
        {
            let inputs = clone_indices(&self.nodes[i].inputs);
            steps.push(ExecStep { node: i, inputs, writes_final: i == last });
            i = i + 1;
        }
        proof {
            assert forall|k: int, a: int|
                0 <= k < steps@.len() && 0 <= a < steps@[k].inputs@.len() implies #[trigger] steps@[k].inputs@[a]
                    < k by {
                assert(steps@[k].inputs@ == self.inputs_at(k));
                assert(self.inputs_at(k)[a] < k);
            }
        }
        steps
    }
}

/// A copy of a list of indices.
fn clone_indices(v: &Vec<usize>) -> (copy: Vec<usize>)
    ensures
        copy@ == v@,
{
    let mut copy: Vec<usize> = Vec::new();
    let mut i: usize = 0;
    while i < v.len()
        invariant
            i <= v@.len(),
            copy@ == v@.take(i as int),
        decreases v@.len() - i,
    {
        copy.push(v[i]);
        proof {
            assert(v@.take(i + 1) =~= v@.take(i as int).push(v@[i as int]));
        }
        i = i + 1;
    }
    proof {
        assert(v@.take(v@.len() as int) =~= v@);
    }
    copy
}

} // verus!
