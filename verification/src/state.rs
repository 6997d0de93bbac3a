//! Decisions the renderer's top-level state makes: the starter graph it
//! builds and which window sizes it reconfigures for.

use vstd::prelude::*;
use crate::model::NodeKind;
use crate::plan::{plan_view, PlannedNode};

verus! {

/// The starter graph as plain values: an animated color source feeding an
/// invert effect, a particle simulation beside it, and an additive blend
/// of the two as the last node, the one that writes to the screen.
pub open spec fn starter_graph() -> Seq<(NodeKind, Seq<usize>)> {
    seq![
        (NodeKind::ColorSource, Seq::<usize>::empty()),
        (NodeKind::Invert, seq![0usize]),
        (NodeKind::Particles, Seq::<usize>::empty()),
        (NodeKind::Add, seq![1usize, 2usize]),
    ]
}

/// The starter graph: its two sources, the color source and the particle
/// simulation, read no input; the invert effect reads the color source;
/// the last node, the additive blend that writes to the screen, reads the
/// inverted color and the particles, in that order.
pub proof fn lemma_starter_graph_shape()
    ensures
        starter_graph().len() == 4,
        forall|k: int|
            0 <= k < 4 && ((#[trigger] starter_graph()[k]).0 == NodeKind::ColorSource
                || starter_graph()[k].0 == NodeKind::Particles) ==> starter_graph()[k].1.len() == 0,
        starter_graph()[0] == (NodeKind::ColorSource, Seq::<usize>::empty()),
        starter_graph()[1] == (NodeKind::Invert, seq![0usize]),
        starter_graph()[2] == (NodeKind::Particles, Seq::<usize>::empty()),
        starter_graph()[3] == (NodeKind::Add, seq![1usize, 2usize]),
        starter_graph()[3].1[0] == 1 && starter_graph()[1].0 == NodeKind::Invert,
        starter_graph()[3].1[1] == 2 && starter_graph()[2].0 == NodeKind::Particles,
{
}

/// The `add_node` calls that build the starter graph, in order.
pub fn starter_plan() -> (plan: Vec<PlannedNode>)
    ensures
        plan_view(plan@) == starter_graph(),
        plan@.len() == 4,
        plan@[0].kind == NodeKind::ColorSource && plan@[0].inputs@.len() == 0,
        plan@[1].kind == NodeKind::Invert && plan@[1].inputs@ == seq![0usize],
        plan@[2].kind == NodeKind::Particles && plan@[2].inputs@.len() == 0,
        plan@[3].kind == NodeKind::Add && plan@[3].inputs@ == seq![1usize, 2usize],
        forall|k: int|
            0 <= k < plan@.len() && (plan@[k].kind == NodeKind::ColorSource || plan@[k].kind
                == NodeKind::Particles) ==> (#[trigger] plan@[k]).inputs@.len() == 0,
        forall|k: int, a: int|
            0 <= k < plan@.len() && 0 <= a < plan@[k].inputs@.len() ==> #[trigger] plan@[k].inputs@[a]
                < k,
{
    let mut plan: Vec<PlannedNode> = Vec::new();
    let source = 0usize;
    plan.push(PlannedNode { kind: NodeKind::ColorSource, inputs: Vec::new() });
    let mut inverted_inputs: Vec<usize> = Vec::new();
    inverted_inputs.push(source);
    plan.push(PlannedNode { kind: NodeKind::Invert, inputs: inverted_inputs });
    let inverted = 1usize;
    plan.push(PlannedNode { kind: NodeKind::Particles, inputs: Vec::new() });
    let particles = 2usize;
    let mut add_inputs: Vec<usize> = Vec::new();
    add_inputs.push(inverted);
    add_inputs.push(particles);
    plan.push(PlannedNode { kind: NodeKind::Add, inputs: add_inputs });
    proof {
        assert(plan@[1].inputs@ =~= seq![0usize]);
        assert(plan@[3].inputs@ =~= seq![1usize, 2usize]);
        assert(plan@[0].inputs@ =~= Seq::<usize>::empty());
        assert(plan@[2].inputs@ =~= Seq::<usize>::empty());
        assert(plan_view(plan@) =~= starter_graph());
        lemma_starter_graph_shape();
        assert forall|k: int, a: int|
            0 <= k < plan@.len() && 0 <= a < plan@[k].inputs@.len() implies #[trigger] plan@[k].inputs@[a]
                < k by {
            assert(plan_view(plan@)[k] == starter_graph()[k]);
        }
    }
    plan
}

/// A window size the surface and the graph's targets are reconfigured
/// for: both sides non-zero (a minimised window reports zero).
pub fn surface_size_usable(width: u32, height: u32) -> (usable: bool)
    ensures
        usable == (width > 0 && height > 0),
{
    width > 0 && height > 0
}

} // verus!
