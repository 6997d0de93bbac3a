use vjnode::graph::{target_extent, Graph};
use vjnode::model::NodeKind;
use vjnode::state::{starter_plan, surface_size_usable};

#[test]
fn add_node_returns_insertion_index() {
    let mut g: Graph<&str, u32, u8> = Graph::new(7, (640, 480));
    assert_eq!(g.add_node("a", vec![], 1), 0);
    assert_eq!(g.add_node("b", vec![0], 2), 1);
    assert_eq!(g.add_node("c", vec![0, 1], 3), 2);
    assert_eq!(g.len(), 3);
    assert_eq!(*g.node(1), "b");
    assert_eq!(*g.target(2), 3);
    assert_eq!(g.inputs(2), &vec![0, 1]);
    assert_eq!(*g.format(), 7);
    assert_eq!(g.size(), (640, 480));
}

#[test]
fn execution_runs_in_insertion_order_and_last_writes_final() {
    let mut g: Graph<&str, u32, u8> = Graph::new(0, (10, 10));
    g.add_node("source", vec![], 0);
    g.add_node("invert", vec![0], 0);
    g.add_node("add", vec![1, 0], 0);
    let steps = g.execution_plan();
    assert_eq!(steps.len(), 3);
    for (k, s) in steps.iter().enumerate() {
        assert_eq!(s.node, k);
        assert_eq!(s.writes_final, k == 2);
    }
    assert_eq!(steps[2].inputs, vec![1, 0]);
}

#[test]
fn empty_graph_executes_nothing() {
    let g: Graph<(), (), ()> = Graph::new((), (1, 1));
    assert!(g.execution_plan().is_empty());
}

#[test]
fn resize_replaces_targets_and_keeps_wiring() {
    let mut g: Graph<&str, (u32, u32), u8> = Graph::new(0, (4, 4));
    g.add_node("a", vec![], (4, 4));
    g.add_node("b", vec![0], (4, 4));
    g.resize((8, 2), vec![(8, 2), (8, 2)]);
    assert_eq!(g.size(), (8, 2));
    assert_eq!(*g.target(0), (8, 2));
    assert_eq!(*g.target(1), (8, 2));
    assert_eq!(*g.node(1), "b");
    assert_eq!(g.inputs(1), &vec![0]);
}

#[test]
fn target_extent_is_at_least_one_pixel() {
    assert_eq!(target_extent((0, 0)), (1, 1));
    assert_eq!(target_extent((1280, 0)), (1280, 1));
    assert_eq!(target_extent((1280, 720)), (1280, 720));
}

#[test]
fn starter_plan_matches_readme_shape() {
    let plan = starter_plan();
    let kinds: Vec<NodeKind> = plan.iter().map(|p| p.kind).collect();
    assert_eq!(kinds, vec![NodeKind::ColorSource, NodeKind::Invert, NodeKind::Particles, NodeKind::Add]);
    assert_eq!(plan[1].inputs, vec![0]);
    assert_eq!(plan[3].inputs, vec![1, 2]);
    let mut g: Graph<NodeKind, (), ()> = Graph::new((), (1280, 720));
    for p in plan {
        g.add_node(p.kind, p.inputs, ());
    }
    let steps = g.execution_plan();
    assert!(steps[3].writes_final);
    assert_eq!(*g.node(3), NodeKind::Add);
}

#[test]
fn surface_size_needs_both_sides() {
    assert!(surface_size_usable(800, 600));
    assert!(!surface_size_usable(0, 600));
    assert!(!surface_size_usable(800, 0));
}

#[test]
fn from_plan_builds_the_planned_wiring() {
    let plan = starter_plan();
    let parts = vec![("source", 10u32), ("invert", 11), ("particles", 12), ("add", 13)];
    let g: Graph<&str, u32, u8> = Graph::from_plan(3, (320, 200), plan, parts);
    assert_eq!(g.len(), 4);
    assert_eq!(*g.node(3), "add");
    assert_eq!(*g.target(2), 12);
    assert_eq!(g.inputs(3), &vec![1, 2]);
    assert_eq!(g.inputs(1), &vec![0]);
    assert!(g.inputs(0).is_empty());
    assert_eq!(*g.format(), 3);
    assert_eq!(g.size(), (320, 200));
    let steps = g.execution_plan();
    assert_eq!(steps.iter().filter(|s| s.writes_final).count(), 1);
    assert!(steps[3].writes_final);
}
