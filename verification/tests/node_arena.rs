use sea_of_nodes::errors::son_error::SoNError;
use sea_of_nodes::nodes::graph::Graph;
use sea_of_nodes::nodes::node::NodeKind::{Add, Constant};
use sea_of_nodes::nodes::node::{CompNodeKind, Node, NodeKind};
use sea_of_nodes::typ::typ::Typ;

#[test]
fn should_construct_constant_node() {
    // Arrange
    let mut graph = Graph::new();

    // Act
    let nid1 = graph.new_node(vec![], NodeKind::Constant, Typ::Int { constant: 42 }).unwrap();

    // Assert
    assert!(matches!(graph.get(nid1).unwrap().as_ref().unwrap().typ, Typ::Int { constant: 42 }));
}

#[test]
fn should_construct_constant_node_in_empty_slot() {
    // Arrange
    let mut graph = Graph::from(vec![None]);

    // Act
    let nid1 = graph.new_node(vec![], Constant, Typ::Bot).unwrap();

    // Assert
    assert_eq!(1, graph.len());
    assert!(matches!(graph.get(nid1).unwrap().as_ref().unwrap().node_kind, Constant));
}

#[test]
fn should_be_able_to_contain_same_dependency_multiple_times() {
    // Arrange
    let mut graph = Graph::from(vec![None]);
    let nid1 = graph.new_node(vec![], Constant, Typ::Bot).unwrap();

    // Act
    let nid2 = graph.new_node(vec![nid1, nid1], Add, Typ::Bot).unwrap();

    // Assert
    let graph_br = graph;
    assert_eq!(2, graph_br.get_node(nid2).unwrap().inputs.len());
    assert_eq!(2, graph_br.get_node(nid1).unwrap().outputs.len());
}

#[test]
fn should_remove_dependency_from_the_back() {
    // Arrange
    let mut graph = Graph::from(vec![None]);
    let nid1 = graph.new_node(vec![], NodeKind::Constant, Typ::Bot).unwrap();
    let nid2 = graph.new_node(vec![nid1], NodeKind::Minus, Typ::Bot).unwrap();
    let nid3 = graph.new_node(vec![nid1], NodeKind::Minus, Typ::Bot).unwrap();
    let mut graph_br = graph;
    graph_br.add_reverse_dependencies_br(nid2, &vec![nid1]).unwrap();
    graph_br.add_dependencies_br(nid2, &vec![nid1]).unwrap();

    // Act
    graph_br.remove_dependency_br(nid2, nid1).unwrap();

    // Assert
    assert!(matches!(graph_br.get_node( nid2).unwrap().inputs.as_slice(), [i] if i == &nid1));
    assert!(matches!(graph_br.get_node( nid1).unwrap().outputs.as_slice(), [i, j] if i == &nid2 && j == &nid3));
}

#[test]
fn should_count_an_edge_once_for_each_use() {
    let mut graph = Graph::new();
    let constant = graph.new_node(vec![], Constant, Typ::Bot).unwrap();
    let sum = graph.new_node(vec![constant, constant], Add, Typ::Bot).unwrap();
    assert_eq!(graph.get_node(constant).unwrap().outputs, vec![sum, sum]);

    graph.remove_dependency_br(sum, constant).unwrap();

    assert_eq!(graph.get_node(constant).unwrap().outputs, vec![sum]);
    assert_eq!(graph.get_node(sum).unwrap().inputs, vec![constant]);
}

fn multiplicity(list: &[usize], x: usize) -> usize {
    list.iter().filter(|y| **y == x).count()
}

fn edges_match(graph: &Graph) -> bool {
    let nodes = graph.graph_iter();
    for n in nodes.iter() {
        for d in nodes.iter() {
            if multiplicity(&n.inputs, d.nid) != multiplicity(&d.outputs, n.nid) {
                return false;
            }
        }
        for input in n.inputs.iter() {
            if !graph.node_exists(*input) {
                return false;
            }
        }
        for output in n.outputs.iter() {
            if !graph.node_exists(*output) {
                return false;
            }
        }
    }
    true
}

#[test]
fn should_keep_inputs_and_outputs_in_step() {
    let mut graph = Graph::new();
    let a = graph.new_node(vec![], Constant, Typ::Int { constant: 1 }).unwrap();
    let b = graph.new_node(vec![], Constant, Typ::Int { constant: 2 }).unwrap();
    assert!(edges_match(&graph));
    let sum = graph.new_node(vec![a, b], Add, Typ::Bot).unwrap();
    assert!(edges_match(&graph));
    let twice = graph.new_node(vec![sum, sum], NodeKind::Mul, Typ::Bot).unwrap();
    assert!(edges_match(&graph));
    graph.remove_dependency_br(twice, sum).unwrap();
    assert!(edges_match(&graph));
    graph.remove_dependency_br(sum, a).unwrap();
    assert!(edges_match(&graph));
    graph.add_dependency_br(sum, b).unwrap();
    assert!(edges_match(&graph));
    assert_eq!(graph.get_node(sum).unwrap().inputs, vec![b, b]);
    assert_eq!(graph.get_node(b).unwrap().outputs, vec![sum, sum]);
    assert_eq!(graph.get_node(a).unwrap().outputs, Vec::<usize>::new());
}

#[test]
fn should_give_unique_ids_in_ascending_order_and_reuse_slots() {
    let mut graph = Graph::new();
    let a = graph.new_node(vec![], Constant, Typ::Bot).unwrap();
    let b = graph.new_node(vec![], Constant, Typ::Bot).unwrap();
    assert_eq!((a, b), (0, 1));
    assert_eq!(graph.get_node(a).unwrap().uid, 0);
    assert_eq!(graph.get_node(b).unwrap().uid, 1);
    assert!(graph.node_exists_unique(a, 0));

    *graph.get_mut(a).unwrap() = None;
    assert!(!graph.node_exists(a));
    assert_eq!(graph.find_first_empty_cell(), 0);
    let c = graph.new_node(vec![], Constant, Typ::Bot).unwrap();

    assert_eq!(c, 0);
    assert_eq!(graph.get_node(c).unwrap().uid, 2);
    assert!(!graph.node_exists_unique(a, 0));
    assert!(graph.node_exists_unique(c, 2));
    assert_eq!(graph.len(), 2);
}

#[test]
fn should_refuse_a_node_whose_input_is_missing_and_change_nothing() {
    let mut graph = Graph::new();
    let a = graph.new_node(vec![], Constant, Typ::Bot).unwrap();

    let result = graph.new_node(vec![a, 7], Add, Typ::Bot);

    assert!(matches!(result, Err(SoNError::NodeIdNotExisting)));
    assert_eq!(graph.len(), 1);
    assert!(graph.get_node(a).unwrap().outputs.is_empty());
    assert!(matches!(graph.new_node(vec![a], Add, Typ::Bot), Err(SoNError::NodeIdNotExisting)));
    assert_eq!(graph.new_node(vec![], Constant, Typ::Bot).unwrap(), 1);
    assert_eq!(graph.get_node(1).unwrap().uid, 1);
}

#[test]
fn should_refuse_edges_to_missing_nodes_and_change_nothing() {
    let mut graph = Graph::new();
    let a = graph.new_node(vec![], Constant, Typ::Bot).unwrap();
    let b = graph.new_node(vec![a], NodeKind::Minus, Typ::Bot).unwrap();

    assert!(matches!(graph.remove_dependency_br(b, 9), Err(SoNError::NodeIdNotExisting)));
    assert!(matches!(graph.remove_dependency_br(9, a), Err(SoNError::NodeIdNotExisting)));
    assert!(matches!(graph.add_dependency_br(b, 9), Err(SoNError::NodeIdNotExisting)));
    assert!(matches!(
        graph.add_reverse_dependencies_br(b, &vec![a, 9]),
        Err(SoNError::NodeIdNotExisting)
    ));
    assert!(matches!(graph.add_dependencies_br(9, &vec![a]), Err(SoNError::NodeIdNotExisting)));
    assert!(matches!(graph.get_node(9), Err(SoNError::NodeIdNotExisting)));
    assert!(matches!(graph.get_node_mut(9), Err(SoNError::NodeIdNotExisting)));

    assert_eq!(graph.get_node(b).unwrap().inputs, vec![a]);
    assert_eq!(graph.get_node(a).unwrap().outputs, vec![b]);
}

#[test]
fn should_leave_the_node_with_its_seed_type_when_refinement_goes_down() {
    let mut graph = Graph::new();
    let a = graph.new_node(vec![], Constant, Typ::Int { constant: 1 }).unwrap();
    let b = graph.new_node(vec![], Constant, Typ::Int { constant: 2 }).unwrap();

    let result = graph.new_node(vec![a, b], Add, Typ::Ctrl);

    assert!(matches!(result, Err(SoNError::TypTransitionNotAllowed)));
    assert_eq!(graph.len(), 3);
    assert_eq!(graph.get_node(2).unwrap().typ(), Typ::Ctrl);
    assert_eq!(graph.get_node(a).unwrap().outputs, vec![2]);
}

#[test]
fn should_only_refine_upwards() {
    let mut node = Node::new(NodeKind::Constant, 0, 0, Typ::IntBot);
    assert!(node.refine_typ(Typ::Int { constant: 3 }).is_ok());
    assert_eq!(node.typ(), Typ::Int { constant: 3 });
    assert!(matches!(node.refine_typ(Typ::IntBot), Err(SoNError::TypTransitionNotAllowed)));
    assert_eq!(node.typ(), Typ::Int { constant: 3 });
    assert!(node.refine_typ(Typ::Top).is_ok());
    assert_eq!(node.typ(), Typ::Top);
}

#[test]
fn should_know_the_arity_of_each_kind() {
    assert_eq!(NodeKind::Start.arity(), 0);
    assert_eq!(NodeKind::KeepAlive.arity(), 0);
    assert_eq!(NodeKind::Scope { scopes: vec![] }.arity(), 0);
    assert_eq!(NodeKind::Constant.arity(), 0);
    assert_eq!(NodeKind::Minus.arity(), 1);
    assert_eq!(NodeKind::Not.arity(), 1);
    assert_eq!(NodeKind::Proj { proj_index: 0, _dbg_proj_label: "x".to_string() }.arity(), 1);
    assert_eq!(NodeKind::Return.arity(), 2);
    assert_eq!(NodeKind::Add.arity(), 2);
    assert_eq!(NodeKind::Sub.arity(), 2);
    assert_eq!(NodeKind::Mul.arity(), 2);
    assert_eq!(NodeKind::Div.arity(), 2);
    assert_eq!(NodeKind::Comp { kind: CompNodeKind::EQ }.arity(), 2);
}

#[test]
fn should_compare_nodes_by_identity() {
    let a = Node::new(NodeKind::Constant, 3, 1, Typ::Bot);
    let same = Node::new(NodeKind::Add, 3, 1, Typ::Top);
    let other_uid = Node::new(NodeKind::Constant, 4, 1, Typ::Bot);
    let other_slot = Node::new(NodeKind::Constant, 3, 2, Typ::Bot);
    assert!(a == same);
    assert!(a != other_uid);
    assert!(a != other_slot);
}

#[test]
fn should_tell_control_nodes() {
    let graph = Graph::new();
    let cfg = [
        NodeKind::Return,
        NodeKind::Start,
        NodeKind::Not,
        NodeKind::Comp { kind: CompNodeKind::LT },
        NodeKind::Proj { proj_index: 0, _dbg_proj_label: "$ctrl".to_string() },
    ];
    for kind in cfg {
        let node = Node::new(kind, 0, 0, Typ::Bot);
        assert!(node.bind(&graph).is_cfg());
    }
    let data = [
        NodeKind::Constant,
        NodeKind::KeepAlive,
        NodeKind::Add,
        NodeKind::Sub,
        NodeKind::Mul,
        NodeKind::Div,
        NodeKind::Minus,
        NodeKind::Scope { scopes: vec![] },
        NodeKind::Proj { proj_index: 1, _dbg_proj_label: "arg".to_string() },
    ];
    for kind in data {
        let node = Node::new(kind, 0, 0, Typ::Bot);
        assert!(!node.bind(&graph).is_cfg());
    }
}

#[test]
fn should_list_the_nodes_in_slot_order() {
    let mut graph = Graph::from(vec![None]);
    graph.push(None);
    let a = graph.new_node(vec![], Constant, Typ::Bot).unwrap();
    graph.push(None);
    let b = graph.new_node(vec![], Constant, Typ::Bot).unwrap();
    assert_eq!((a, b), (0, 1));
    let slots: Vec<usize> = graph.graph_iter().iter().map(|n| n.nid).collect();
    assert_eq!(slots, vec![0, 1]);
    assert_eq!(graph.graph_iter_mut().len(), 2);
    assert_eq!(graph.len(), 3);
    assert!(graph.get(2).unwrap().is_none());
    assert!(graph.get(3).is_none());
}
