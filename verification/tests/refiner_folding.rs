use sea_of_nodes::errors::son_error::SoNError;
use sea_of_nodes::nodes::graph::Graph;
use sea_of_nodes::nodes::node::{CompNodeKind, Node, NodeKind};
use sea_of_nodes::typ::typ::Typ;

fn integer(graph: &mut Graph, value: i64) -> usize {
    graph.new_node(vec![], NodeKind::Constant, Typ::Int { constant: value }).unwrap()
}

fn boolean(graph: &mut Graph, value: bool) -> usize {
    graph.new_node(vec![], NodeKind::Constant, Typ::Bool { constant: value }).unwrap()
}

fn binary(kind: NodeKind, a: i64, b: i64) -> Typ {
    let mut graph = Graph::new();
    let x = integer(&mut graph, a);
    let y = integer(&mut graph, b);
    let n = graph.new_node(vec![x, y], kind, Typ::Bot).unwrap();
    graph.get_node(n).unwrap().typ()
}

fn logical(kind: CompNodeKind, a: bool, b: bool) -> Typ {
    let mut graph = Graph::new();
    let x = boolean(&mut graph, a);
    let y = boolean(&mut graph, b);
    let n = graph.new_node(vec![x, y], NodeKind::Comp { kind }, Typ::Bot).unwrap();
    graph.get_node(n).unwrap().typ()
}

#[test]
fn should_fold_arithmetic_on_constants() {
    assert_eq!(binary(NodeKind::Add, 2, 3), Typ::Int { constant: 5 });
    assert_eq!(binary(NodeKind::Sub, 2, 3), Typ::Int { constant: -1 });
    assert_eq!(binary(NodeKind::Mul, -4, 3), Typ::Int { constant: -12 });
    assert_eq!(binary(NodeKind::Div, 7, 2), Typ::Int { constant: 3 });
    assert_eq!(binary(NodeKind::Div, -7, 2), Typ::Int { constant: -3 });
    assert_eq!(binary(NodeKind::Div, 7, -2), Typ::Int { constant: -3 });
    assert_eq!(binary(NodeKind::Div, -7, -2), Typ::Int { constant: 3 });
}

#[test]
fn should_wrap_on_overflow() {
    assert_eq!(binary(NodeKind::Add, i64::MAX, 1), Typ::Int { constant: i64::MIN });
    assert_eq!(binary(NodeKind::Sub, i64::MIN, 1), Typ::Int { constant: i64::MAX });
    assert_eq!(binary(NodeKind::Mul, i64::MAX, 2), Typ::Int { constant: -2 });
    assert_eq!(binary(NodeKind::Mul, i64::MIN, -1), Typ::Int { constant: i64::MIN });
    assert_eq!(binary(NodeKind::Div, i64::MIN, -1), Typ::Int { constant: i64::MIN });
}

#[test]
fn should_not_fold_a_division_by_zero() {
    assert_eq!(binary(NodeKind::Div, 7, 0), Typ::Bot);
    assert_eq!(binary(NodeKind::Div, 0, 0), Typ::Bot);
}

#[test]
fn should_fold_negation_and_complement() {
    let mut graph = Graph::new();
    let five = integer(&mut graph, 5);
    let min = integer(&mut graph, i64::MIN);
    let yes = boolean(&mut graph, true);
    let minus = graph.new_node(vec![five], NodeKind::Minus, Typ::Bot).unwrap();
    let minus_min = graph.new_node(vec![min], NodeKind::Minus, Typ::Bot).unwrap();
    let not = graph.new_node(vec![five], NodeKind::Not, Typ::Bot).unwrap();
    let not_yes = graph.new_node(vec![yes], NodeKind::Not, Typ::Bot).unwrap();
    let minus_yes = graph.new_node(vec![yes], NodeKind::Minus, Typ::Bot).unwrap();
    assert_eq!(graph.get_node(minus).unwrap().typ(), Typ::Int { constant: -5 });
    assert_eq!(graph.get_node(minus_min).unwrap().typ(), Typ::Int { constant: i64::MIN });
    assert_eq!(graph.get_node(not).unwrap().typ(), Typ::Int { constant: -6 });
    assert_eq!(graph.get_node(not_yes).unwrap().typ(), Typ::Bool { constant: false });
    assert_eq!(graph.get_node(minus_yes).unwrap().typ(), Typ::Bot);
}

#[test]
fn should_fold_comparisons() {
    let comp = |kind| NodeKind::Comp { kind };
    assert_eq!(binary(comp(CompNodeKind::LT), 1, 2), Typ::Bool { constant: true });
    assert_eq!(binary(comp(CompNodeKind::LT), 2, 2), Typ::Bool { constant: false });
    assert_eq!(binary(comp(CompNodeKind::LEQ), 2, 2), Typ::Bool { constant: true });
    assert_eq!(binary(comp(CompNodeKind::LEQ), 3, 2), Typ::Bool { constant: false });
    assert_eq!(binary(comp(CompNodeKind::EQ), 3, 3), Typ::Bool { constant: true });
    assert_eq!(binary(comp(CompNodeKind::EQ), 3, 4), Typ::Bool { constant: false });
    assert_eq!(binary(comp(CompNodeKind::LogAnd), 12, 10), Typ::Int { constant: 8 });
    assert_eq!(binary(comp(CompNodeKind::LogOr), 12, 10), Typ::Int { constant: 14 });
    assert_eq!(binary(comp(CompNodeKind::LogXor), 12, 10), Typ::Int { constant: 6 });
    assert_eq!(binary(comp(CompNodeKind::LogXor), 1, 1), Typ::Int { constant: 0 });
    assert_eq!(binary(comp(CompNodeKind::LogAnd), -1, 5), Typ::Int { constant: 5 });
}

#[test]
fn should_fold_logic_on_booleans() {
    assert_eq!(logical(CompNodeKind::EQ, true, true), Typ::Bool { constant: true });
    assert_eq!(logical(CompNodeKind::EQ, true, false), Typ::Bool { constant: false });
    assert_eq!(logical(CompNodeKind::LogAnd, true, false), Typ::Bool { constant: false });
    assert_eq!(logical(CompNodeKind::LogAnd, true, true), Typ::Bool { constant: true });
    assert_eq!(logical(CompNodeKind::LogOr, false, true), Typ::Bool { constant: true });
    assert_eq!(logical(CompNodeKind::LogOr, false, false), Typ::Bool { constant: false });
    assert_eq!(logical(CompNodeKind::LogXor, true, true), Typ::Bool { constant: false });
    assert_eq!(logical(CompNodeKind::LogXor, true, false), Typ::Bool { constant: true });
    assert_eq!(logical(CompNodeKind::LT, false, true), Typ::Bot);
    assert_eq!(logical(CompNodeKind::LEQ, false, true), Typ::Bot);
}

#[test]
fn should_keep_the_type_when_an_input_is_no_constant() {
    let mut graph = Graph::new();
    let one = integer(&mut graph, 1);
    let any = graph.new_node(vec![], NodeKind::Constant, Typ::IntBot).unwrap();
    let yes = boolean(&mut graph, true);
    let sum = graph.new_node(vec![one, any], NodeKind::Add, Typ::IntBot).unwrap();
    let mixed = graph.new_node(vec![one, yes], NodeKind::Add, Typ::Bot).unwrap();
    let eq = graph.new_node(vec![one, yes], NodeKind::Comp { kind: CompNodeKind::EQ }, Typ::Bot).unwrap();
    assert_eq!(graph.get_node(sum).unwrap().typ(), Typ::IntBot);
    assert_eq!(graph.get_node(mixed).unwrap().typ(), Typ::Bot);
    assert_eq!(graph.get_node(eq).unwrap().typ(), Typ::Bot);
}

#[test]
fn should_project_a_component_of_a_tuple() {
    let mut graph = Graph::new();
    let start = graph
        .new_node(vec![], NodeKind::Start, Typ::Tuple { typs: vec![Typ::Ctrl, Typ::Int { constant: 9 }] })
        .unwrap();
    let proj = |i: usize| NodeKind::Proj { proj_index: i, _dbg_proj_label: "p".to_string() };
    let first = graph.new_node(vec![start], proj(0), Typ::Bot).unwrap();
    let second = graph.new_node(vec![start], proj(1), Typ::Bot).unwrap();
    let third = graph.new_node(vec![start], proj(2), Typ::Bot).unwrap();
    let of_int = graph.new_node(vec![second], proj(0), Typ::Bot).unwrap();
    assert_eq!(graph.get_node(first).unwrap().typ(), Typ::Ctrl);
    assert_eq!(graph.get_node(second).unwrap().typ(), Typ::Int { constant: 9 });
    assert_eq!(graph.get_node(third).unwrap().typ(), Typ::Bot);
    assert_eq!(graph.get_node(of_int).unwrap().typ(), Typ::Bot);
}

#[test]
fn should_leave_other_kinds_alone() {
    let mut graph = Graph::new();
    let one = integer(&mut graph, 1);
    let ret = graph.new_node(vec![one, one], NodeKind::Return, Typ::Bot).unwrap();
    let lonely = graph.new_node(vec![], NodeKind::Return, Typ::Bot).unwrap();
    assert_eq!(graph.get_node(ret).unwrap().typ(), Typ::Bot);
    assert_eq!(graph.get_node(lonely).unwrap().typ(), Typ::Bot);
    assert_eq!(graph.get_node(one).unwrap().typ(), Typ::Int { constant: 1 });
}

#[test]
fn should_fail_to_refine_when_an_input_is_missing() {
    let mut graph = Graph::new();
    let one = integer(&mut graph, 1);
    let mut sum = Node::new(NodeKind::Add, 9, 9, Typ::Bot);
    sum.inputs = vec![one];
    assert!(matches!(graph.compute_refined_typ(&sum), Err(SoNError::NodeIdNotExisting)));
    sum.inputs = vec![one, 5];
    assert!(matches!(graph.compute_refined_typ(&sum), Err(SoNError::NodeIdNotExisting)));
    sum.inputs = vec![one, one];
    assert_eq!(graph.compute_refined_typ(&sum).unwrap(), Typ::Int { constant: 2 });
    assert_eq!(graph.compute_refined_typ(&sum).unwrap(), Typ::Int { constant: 2 });
}
