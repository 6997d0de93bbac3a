use vjnode::graph::Graph;
use vjnode::model::{topological_sort, CanvasPos, GraphModel, NodeId, NodeKind, NodeModel};
use vjnode::plan::{build_plan, plan_from_order, BuildError};

fn node(id: NodeId, kind: NodeKind, inputs: Vec<NodeId>) -> NodeModel {
    NodeModel { id, kind, pos: CanvasPos { x_bits: 0, y_bits: 0 }, inputs }
}

fn position(order: &[NodeId], id: NodeId) -> usize {
    order.iter().position(|x| *x == id).expect("id missing from order")
}

fn assert_topological(model: &GraphModel, order: &[NodeId]) {
    assert_eq!(order.len(), model.nodes.len());
    for n in &model.nodes {
        let at = position(order, n.id);
        for inp in &n.inputs {
            assert!(position(order, *inp) < at);
        }
    }
}

fn starter_model() -> GraphModel {
    GraphModel {
        nodes: vec![
            node(40, NodeKind::Add, vec![20, 30]),
            node(20, NodeKind::Invert, vec![10]),
            node(30, NodeKind::Particles, vec![]),
            node(10, NodeKind::ColorSource, vec![]),
        ],
    }
}

#[test]
fn default_model_is_empty() {
    let model = GraphModel::default();
    assert!(model.nodes.is_empty());
    assert_eq!(topological_sort(&model), Ok(vec![]));
}

#[test]
fn sort_places_every_node_after_its_inputs() {
    let model = starter_model();
    let order = topological_sort(&model).unwrap();
    assert_topological(&model, &order);
}

#[test]
fn sort_single_chain_has_one_order() {
    let model = GraphModel {
        nodes: vec![
            node(3, NodeKind::Invert, vec![2]),
            node(1, NodeKind::ColorSource, vec![]),
            node(2, NodeKind::Invert, vec![1]),
        ],
    };
    assert_eq!(topological_sort(&model), Ok(vec![1, 2, 3]));
}

#[test]
fn sort_diamond_with_repeated_input() {
    let model = GraphModel {
        nodes: vec![
            node(1, NodeKind::ColorSource, vec![]),
            node(2, NodeKind::Invert, vec![1]),
            node(3, NodeKind::Invert, vec![1]),
            node(4, NodeKind::Add, vec![2, 3]),
            node(5, NodeKind::Add, vec![4, 4]),
        ],
    };
    let order = topological_sort(&model).unwrap();
    assert_topological(&model, &order);
    assert_eq!(order[0], 1);
    assert_eq!(order[4], 5);
}

#[test]
fn sort_refuses_cycle() {
    let model = GraphModel {
        nodes: vec![
            node(1, NodeKind::Invert, vec![2]),
            node(2, NodeKind::Invert, vec![1]),
            node(3, NodeKind::ColorSource, vec![]),
        ],
    };
    assert_eq!(topological_sort(&model), Err("cycle"));
}

#[test]
fn sort_refuses_self_loop() {
    let model = GraphModel { nodes: vec![node(7, NodeKind::Invert, vec![7])] };
    assert_eq!(topological_sort(&model), Err("cycle"));
}

#[test]
fn sort_refuses_missing_input() {
    let model = GraphModel {
        nodes: vec![node(1, NodeKind::ColorSource, vec![]), node(2, NodeKind::Invert, vec![99])],
    };
    assert_eq!(topological_sort(&model), Err("cycle"));
}

#[test]
fn sort_refuses_duplicate_ids() {
    let model = GraphModel {
        nodes: vec![node(1, NodeKind::ColorSource, vec![]), node(1, NodeKind::Particles, vec![])],
    };
    assert_eq!(topological_sort(&model), Err("cycle"));
}

#[test]
fn find_returns_first_match() {
    let model = GraphModel {
        nodes: vec![
            node(5, NodeKind::Invert, vec![]),
            node(6, NodeKind::Add, vec![]),
            node(6, NodeKind::Particles, vec![]),
        ],
    };
    assert_eq!(model.find(&6).map(|n| n.kind), Some(NodeKind::Add));
    assert_eq!(model.find(&5).map(|n| n.kind), Some(NodeKind::Invert));
    assert!(model.find(&7).is_none());
}

#[test]
fn find_mut_edits_only_that_node() {
    let mut model = starter_model();
    if let Some(n) = model.find_mut(&20) {
        n.kind = NodeKind::Add;
        n.inputs.push(30);
    }
    assert_eq!(model.nodes[1].kind, NodeKind::Add);
    assert_eq!(model.nodes[1].inputs, vec![10, 30]);
    assert_eq!(model.nodes[0].kind, NodeKind::Add);
    assert_eq!(model.nodes[2].kind, NodeKind::Particles);
    assert!(model.find_mut(&1234).is_none());
}

#[test]
fn plan_wires_inputs_to_earlier_indices() {
    let model = starter_model();
    let plan = build_plan(&model).unwrap();
    assert_eq!(plan.len(), 4);
    for (k, p) in plan.iter().enumerate() {
        for i in &p.inputs {
            assert!(*i < k);
        }
    }
    let add = plan.iter().position(|p| p.kind == NodeKind::Add).unwrap();
    assert_eq!(add, 3);
    let inputs: Vec<NodeKind> = plan[add].inputs.iter().map(|i| plan[*i].kind).collect();
    assert_eq!(inputs, vec![NodeKind::Invert, NodeKind::Particles]);
    let invert = plan.iter().position(|p| p.kind == NodeKind::Invert).unwrap();
    assert_eq!(plan[plan[invert].inputs[0]].kind, NodeKind::ColorSource);
}

#[test]
fn plan_refuses_cycle_with_message() {
    let model = GraphModel {
        nodes: vec![node(1, NodeKind::Invert, vec![2]), node(2, NodeKind::Invert, vec![1])],
    };
    let err = build_plan(&model).unwrap_err();
    assert_eq!(err, BuildError::Cycle);
    assert_eq!(err.message(), "cycle in graph model");
}

#[test]
fn plan_from_order_reports_unknown_node() {
    let model = starter_model();
    let id: NodeId = 0x67e5504410b1426f9247bb680e5fe0c8;
    let err = plan_from_order(&model, &vec![10, id]).unwrap_err();
    assert_eq!(err, BuildError::NodeNotFound(id));
    assert_eq!(err.message(), "node id 67e55044-10b1-426f-9247-bb680e5fe0c8 not found");
}

#[test]
fn plan_from_order_reports_input_not_placed_earlier() {
    let model = starter_model();
    let err = plan_from_order(&model, &vec![20, 10]).unwrap_err();
    assert_eq!(err, BuildError::InputNotFound(10));
    assert_eq!(err.message(), "input id 00000000-0000-0000-0000-00000000000a not found/earlier");
}

#[test]
fn plan_from_order_follows_the_given_order() {
    let model = starter_model();
    let plan = plan_from_order(&model, &vec![30, 10, 20, 40]).unwrap();
    let kinds: Vec<NodeKind> = plan.iter().map(|p| p.kind).collect();
    assert_eq!(kinds, vec![NodeKind::Particles, NodeKind::ColorSource, NodeKind::Invert, NodeKind::Add]);
    assert_eq!(plan[2].inputs, vec![1]);
    assert_eq!(plan[3].inputs, vec![2, 0]);
}

#[test]
fn model_plan_builds_runtime_graph() {
    let model = starter_model();
    let plan = build_plan(&model).unwrap();
    let parts: Vec<(NodeKind, ())> = plan.iter().map(|p| (p.kind, ())).collect();
    let g: Graph<NodeKind, (), ()> = Graph::from_plan((), (1, 1), plan, parts);
    let steps = g.execution_plan();
    assert_eq!(steps.len(), 4);
    assert_eq!(*g.node(3), NodeKind::Add);
    for s in &steps {
        for i in &s.inputs {
            assert!(*i < s.node);
        }
    }
}
