use sea_of_nodes::errors::son_error::SoNError;
use sea_of_nodes::nodes::bound_node::BoundNode;
use sea_of_nodes::nodes::graph::Graph;
use sea_of_nodes::nodes::node::{CompNodeKind, NodeKind};
use sea_of_nodes::services::node_idealizer::{select_rewrite, Rewrite};
use sea_of_nodes::services::parser::Parser;
use sea_of_nodes::typ::typ::Typ;

fn value(graph: &mut Graph, typ: Typ) -> usize {
    graph.new_node(vec![], NodeKind::Constant, typ).unwrap()
}

fn op(graph: &mut Graph, kind: NodeKind, a: usize, b: usize) -> usize {
    graph.new_node(vec![a, b], kind, Typ::Bot).unwrap()
}

fn comp(kind: CompNodeKind) -> NodeKind {
    NodeKind::Comp { kind }
}

#[test]
fn should_drop_neutral_operands() {
    let mut g = Graph::new();
    let x = value(&mut g, Typ::IntBot);
    let zero = value(&mut g, Typ::Int { constant: 0 });
    let one = value(&mut g, Typ::Int { constant: 1 });
    let b = value(&mut g, Typ::BoolBot);
    let yes = value(&mut g, Typ::Bool { constant: true });
    let no = value(&mut g, Typ::Bool { constant: false });
    let sum = op(&mut g, NodeKind::Add, x, zero);
    let product = op(&mut g, NodeKind::Mul, x, one);
    let quotient = op(&mut g, NodeKind::Div, x, one);
    let and = op(&mut g, comp(CompNodeKind::LogAnd), b, yes);
    let or = op(&mut g, comp(CompNodeKind::LogOr), b, no);
    assert_eq!(select_rewrite(&g, sum).unwrap(), Rewrite::Replace { nid: x });
    assert_eq!(select_rewrite(&g, product).unwrap(), Rewrite::Replace { nid: x });
    assert_eq!(select_rewrite(&g, quotient).unwrap(), Rewrite::Replace { nid: x });
    assert_eq!(select_rewrite(&g, and).unwrap(), Rewrite::Replace { nid: b });
    assert_eq!(select_rewrite(&g, or).unwrap(), Rewrite::Replace { nid: b });
}

#[test]
fn should_rewrite_an_operation_on_one_node_twice() {
    let mut g = Graph::new();
    let x = value(&mut g, Typ::IntBot);
    let b = value(&mut g, Typ::BoolBot);
    let sum = op(&mut g, NodeKind::Add, x, x);
    let and = op(&mut g, comp(CompNodeKind::LogAnd), x, x);
    let or = op(&mut g, comp(CompNodeKind::LogOr), x, x);
    let xor = g.new_node(vec![x, x], comp(CompNodeKind::LogXor), Typ::IntBot).unwrap();
    let bool_xor = g.new_node(vec![b, b], comp(CompNodeKind::LogXor), Typ::BoolBot).unwrap();
    let untyped_xor = op(&mut g, comp(CompNodeKind::LogXor), x, x);
    assert_eq!(select_rewrite(&g, sum).unwrap(), Rewrite::Double { nid: x });
    assert_eq!(select_rewrite(&g, and).unwrap(), Rewrite::Replace { nid: x });
    assert_eq!(select_rewrite(&g, or).unwrap(), Rewrite::Replace { nid: x });
    assert_eq!(select_rewrite(&g, xor).unwrap(), Rewrite::Zero);
    assert_eq!(select_rewrite(&g, bool_xor).unwrap(), Rewrite::False);
    assert_eq!(select_rewrite(&g, untyped_xor).unwrap(), Rewrite::Keep);
}

#[test]
fn should_lean_chains_to_the_left() {
    let mut g = Graph::new();
    let a = value(&mut g, Typ::IntBot);
    let b = value(&mut g, Typ::IntBot);
    let c = value(&mut g, Typ::IntBot);
    let d = value(&mut g, Typ::IntBot);
    let bc = op(&mut g, NodeKind::Add, b, c);
    let spine = op(&mut g, NodeKind::Add, a, bc);
    let ad = op(&mut g, NodeKind::Add, a, d);
    let both = op(&mut g, NodeKind::Add, ad, bc);
    assert_eq!(select_rewrite(&g, spine).unwrap(), Rewrite::Swap);
    assert_eq!(
        select_rewrite(&g, both).unwrap(),
        Rewrite::GroupLeft { a: ad, b, c, again: false }
    );
    let xbc = op(&mut g, comp(CompNodeKind::LogXor), b, c);
    let xspine = op(&mut g, comp(CompNodeKind::LogXor), a, xbc);
    let xad = op(&mut g, comp(CompNodeKind::LogXor), a, d);
    let xboth = op(&mut g, comp(CompNodeKind::LogXor), xad, xbc);
    assert_eq!(select_rewrite(&g, xspine).unwrap(), Rewrite::Swap);
    assert_eq!(
        select_rewrite(&g, xboth).unwrap(),
        Rewrite::GroupLeft { a: xad, b, c, again: false }
    );
}

#[test]
fn should_order_operands_by_unique_id() {
    let mut g = Graph::new();
    let a = value(&mut g, Typ::IntBot);
    let b = value(&mut g, Typ::IntBot);
    let c = value(&mut g, Typ::IntBot);
    let ordered = op(&mut g, NodeKind::Add, a, b);
    let unordered = op(&mut g, NodeKind::Add, b, a);
    let eq = op(&mut g, comp(CompNodeKind::EQ), b, a);
    let lt = op(&mut g, comp(CompNodeKind::LT), b, a);
    let sub = op(&mut g, NodeKind::Sub, b, a);
    assert_eq!(select_rewrite(&g, ordered).unwrap(), Rewrite::Keep);
    assert_eq!(select_rewrite(&g, unordered).unwrap(), Rewrite::Swap);
    assert_eq!(select_rewrite(&g, eq).unwrap(), Rewrite::Swap);
    assert_eq!(select_rewrite(&g, lt).unwrap(), Rewrite::Keep);
    assert_eq!(select_rewrite(&g, sub).unwrap(), Rewrite::Keep);
    let ac = op(&mut g, NodeKind::Add, a, c);
    let rotate = op(&mut g, NodeKind::Add, ac, b);
    let stay = op(&mut g, NodeKind::Add, ordered, c);
    assert_eq!(
        select_rewrite(&g, rotate).unwrap(),
        Rewrite::GroupLeft { a, b, c, again: false }
    );
    assert_eq!(select_rewrite(&g, stay).unwrap(), Rewrite::Keep);
    let eq_ac = op(&mut g, comp(CompNodeKind::EQ), a, c);
    let eq_rotate = op(&mut g, comp(CompNodeKind::EQ), eq_ac, b);
    assert_eq!(
        select_rewrite(&g, eq_rotate).unwrap(),
        Rewrite::GroupLeft { a, b, c, again: true }
    );
}

#[test]
fn should_move_constants_to_the_right() {
    let mut g = Graph::new();
    let k1 = value(&mut g, Typ::Int { constant: 3 });
    let x = value(&mut g, Typ::IntBot);
    let k2 = value(&mut g, Typ::Int { constant: 4 });
    let left_const = op(&mut g, NodeKind::Mul, k1, x);
    let right_const = op(&mut g, NodeKind::Mul, x, k1);
    assert_eq!(select_rewrite(&g, left_const).unwrap(), Rewrite::Swap);
    assert_eq!(select_rewrite(&g, right_const).unwrap(), Rewrite::Keep);
    let xk1 = g.new_node(vec![x, k1], NodeKind::Add, Typ::IntBot).unwrap();
    let hoist = g.new_node(vec![xk1, k2], NodeKind::Add, Typ::IntBot).unwrap();
    assert_eq!(
        select_rewrite(&g, hoist).unwrap(),
        Rewrite::GroupRight { a: x, b: k1, c: k2, again: false }
    );
    let and1 = g.new_node(vec![x, k1], comp(CompNodeKind::LogAnd), Typ::IntBot).unwrap();
    let and2 = g.new_node(vec![and1, k2], comp(CompNodeKind::LogAnd), Typ::IntBot).unwrap();
    assert_eq!(
        select_rewrite(&g, and2).unwrap(),
        Rewrite::GroupRight { a: x, b: k1, c: k2, again: true }
    );
}

#[test]
fn should_pass_other_kinds_through() {
    let mut g = Graph::new();
    let x = value(&mut g, Typ::IntBot);
    let one = value(&mut g, Typ::Int { constant: 1 });
    let kinds = vec![NodeKind::Sub, NodeKind::Return];
    for kind in kinds {
        let n = op(&mut g, kind, x, one);
        assert_eq!(select_rewrite(&g, n).unwrap(), Rewrite::Keep);
    }
    let minus = g.new_node(vec![x], NodeKind::Minus, Typ::Bot).unwrap();
    let not = g.new_node(vec![x], NodeKind::Not, Typ::Bot).unwrap();
    assert_eq!(select_rewrite(&g, minus).unwrap(), Rewrite::Keep);
    assert_eq!(select_rewrite(&g, not).unwrap(), Rewrite::Keep);
    assert_eq!(select_rewrite(&g, x).unwrap(), Rewrite::Keep);
    assert!(select_rewrite(&g, 99).is_err());
}

fn optimized(program: &str) -> String {
    let mut parser = Parser::new_noarg(program).unwrap();
    let result = parser.parse().unwrap();
    let node = parser.graph.get_node(result).unwrap();
    BoundNode::new(node, &parser.graph).to_string().unwrap()
}

#[test]
fn should_idealize_while_parsing() {
    assert_eq!(optimized("return arg+0;"), "return arg;");
    assert_eq!(optimized("return arg*1;"), "return arg;");
    assert_eq!(optimized("return arg/1;"), "return arg;");
    assert_eq!(optimized("return 1*arg;"), "return arg;");
    assert_eq!(optimized("return arg+arg;"), "return (arg*2);");
    assert_eq!(optimized("return 2*arg;"), "return (arg*2);");
    assert_eq!(optimized("return 1+arg;"), "return (arg+1);");
    assert_eq!(optimized("return arg+1+2;"), "return (arg+3);");
    assert_eq!(optimized("return (arg+1)+2;"), "return (arg+3);");
    assert_eq!(optimized("return arg-arg;"), "return (arg-arg);");
    assert_eq!(optimized("return -arg;"), "return (-arg);");
    assert_eq!(optimized("return 10/0;"), "return (10/0);");
}

#[test]
fn should_return_a_settled_node_unchanged_from_a_second_peephole() {
    let programs = ["return arg+arg;", "return 1+arg;", "return (arg+1)+2;", "return 1+2*3+-5;"];
    for program in programs {
        let mut parser = Parser::new_noarg(program).unwrap();
        let result = parser.parse().unwrap();
        let value = parser.graph.get_node(result).unwrap().inputs[1];
        let live_before = parser.graph.graph_iter().len();
        assert_eq!(parser.peephole(value).unwrap(), value);
        assert_eq!(parser.peephole(value).unwrap(), value);
        assert_eq!(parser.idealize_node(value).unwrap(), value);
        assert_eq!(parser.graph.graph_iter().len(), live_before);
    }
}

#[test]
fn should_materialize_constants() {
    let mut parser = Parser::new_noarg("").unwrap();
    let one = parser.add_node(vec![], NodeKind::Constant, Typ::Int { constant: 1 }).unwrap();
    parser.keep_node(one).unwrap();
    let xor = parser.add_node_unrefined(vec![one, one], NodeKind::Comp { kind: CompNodeKind::LogXor }).unwrap();
    parser.unkeep_node(one).unwrap();
    let node = parser.graph.get_node(xor).unwrap();
    assert!(matches!(node.node_kind, NodeKind::Constant));
    assert_eq!(node.typ(), Typ::Int { constant: 0 });
}

#[test]
fn should_settle_a_hand_built_chain_one_peephole_at_a_time() {
    let mut parser = Parser::new_noarg("").unwrap();
    let a = value(&mut parser.graph, Typ::IntBot);
    let one = value(&mut parser.graph, Typ::Int { constant: 1 });
    let two = value(&mut parser.graph, Typ::Int { constant: 2 });
    let zero = value(&mut parser.graph, Typ::Int { constant: 0 });
    let inner = op(&mut parser.graph, NodeKind::Add, a, one);
    let chain = op(&mut parser.graph, NodeKind::Add, inner, two);
    let sum = op(&mut parser.graph, NodeKind::Add, chain, zero);
    let first = parser.peephole(sum).unwrap();
    assert_eq!(first, chain);
    let second = parser.peephole(first).unwrap();
    assert_ne!(second, chain);
    let node = parser.graph.get_node(second).unwrap();
    assert!(matches!(node.node_kind, NodeKind::Add));
    assert_eq!(node.inputs[0], a);
    let folded = parser.graph.get_node(node.inputs[1]).unwrap();
    assert!(matches!(folded.node_kind, NodeKind::Constant));
    assert_eq!(folded.typ(), Typ::Int { constant: 3 });
    assert_eq!(parser.peephole(second).unwrap(), second);
}

#[test]
fn should_give_way_to_a_constant_of_the_refined_type() {
    let mut parser = Parser::new_noarg("").unwrap();
    let three = parser.add_node(vec![], NodeKind::Constant, Typ::Int { constant: 3 }).unwrap();
    parser.keep_node(three).unwrap();
    let four = parser.add_node(vec![], NodeKind::Constant, Typ::Int { constant: 4 }).unwrap();
    parser.keep_node(four).unwrap();
    let uid = parser.graph.get_node(four).unwrap().uid;
    let product = parser.add_node(vec![three, four], NodeKind::Mul, Typ::Bot).unwrap();
    let node = parser.graph.get_node(product).unwrap();
    assert!(matches!(node.node_kind, NodeKind::Constant));
    assert_eq!(node.typ(), Typ::Int { constant: 12 });
    assert_eq!(node.uid, uid + 2);
    assert!(node.inputs.is_empty());
    assert!(node.outputs.is_empty());
    let same = parser.peephole(product).unwrap();
    assert_eq!(same, product);
    let less = parser.add_node(vec![three, four], NodeKind::Comp { kind: CompNodeKind::LT }, Typ::Bot);
    let node = parser.graph.get_node(less.unwrap()).unwrap();
    assert!(matches!(node.node_kind, NodeKind::Constant));
    assert_eq!(node.typ(), Typ::Bool { constant: true });
}

#[test]
fn should_make_the_constant_that_a_rewrite_asks_for() {
    let mut parser = Parser::new_noarg("").unwrap();
    let x = value(&mut parser.graph, Typ::IntBot);
    let b = value(&mut parser.graph, Typ::BoolBot);
    let xor = parser.graph.new_node(vec![x, x], comp(CompNodeKind::LogXor), Typ::IntBot).unwrap();
    let bool_xor =
        parser.graph.new_node(vec![b, b], comp(CompNodeKind::LogXor), Typ::BoolBot).unwrap();
    parser.keep_node(bool_xor).unwrap();
    let zero = parser.idealize_node(xor).unwrap();
    let node = parser.graph.get_node(zero).unwrap();
    assert!(matches!(node.node_kind, NodeKind::Constant));
    assert_eq!(node.typ(), Typ::Int { constant: 0 });
    let no = parser.idealize_node(bool_xor).unwrap();
    let node = parser.graph.get_node(no).unwrap();
    assert!(matches!(node.node_kind, NodeKind::Constant));
    assert_eq!(node.typ(), Typ::Bool { constant: false });
}

#[test]
fn should_make_the_nodes_of_a_rewrite_with_the_optimizer_off() {
    let mut parser = Parser::new_noarg("").unwrap();
    parser.do_optimize = false;
    let x = value(&mut parser.graph, Typ::IntBot);
    let sum = op(&mut parser.graph, NodeKind::Add, x, x);
    let next = parser.graph.get_node(sum).unwrap().uid + 1;
    let product = parser.idealize_node(sum).unwrap();
    let node = parser.graph.get_node(product).unwrap();
    assert!(matches!(node.node_kind, NodeKind::Mul));
    assert_eq!(node.uid, next + 1);
    assert_eq!(node.inputs.len(), 2);
    assert_eq!(node.inputs[0], x);
    assert!(node.outputs.is_empty());
    assert_eq!(node.typ(), Typ::Bot);
    let two = parser.graph.get_node(node.inputs[1]).unwrap();
    assert_eq!(two.typ(), Typ::Int { constant: 2 });
    assert_eq!(two.uid, next);

    let a = value(&mut parser.graph, Typ::IntBot);
    let b = value(&mut parser.graph, Typ::IntBot);
    let unordered = op(&mut parser.graph, NodeKind::Add, b, a);
    assert_eq!(parser.idealize_node(unordered).unwrap(), unordered);
    assert_eq!(parser.graph.get_node(unordered).unwrap().inputs, vec![a, b]);

    let c = value(&mut parser.graph, Typ::IntBot);
    let d = value(&mut parser.graph, Typ::IntBot);
    let ad = op(&mut parser.graph, NodeKind::Add, a, d);
    let cd = op(&mut parser.graph, NodeKind::Add, c, d);
    let both = op(&mut parser.graph, NodeKind::Add, ad, cd);
    let next = parser.graph.get_node(both).unwrap().uid + 1;
    let outer = parser.idealize_node(both).unwrap();
    let node = parser.graph.get_node(outer).unwrap();
    assert!(matches!(node.node_kind, NodeKind::Add));
    assert_eq!(node.uid, next + 1);
    assert_eq!(node.inputs.len(), 2);
    assert_eq!(node.inputs[1], d);
    assert!(node.outputs.is_empty());
    let inner = parser.graph.get_node(node.inputs[0]).unwrap();
    assert!(matches!(inner.node_kind, NodeKind::Add));
    assert_eq!(inner.inputs, vec![ad, c]);
    assert_eq!(inner.uid, next);
}

#[test]
fn should_fold_a_doubled_constant_and_fail_without_the_operand() {
    let mut parser = Parser::new_noarg("").unwrap();
    let seven = value(&mut parser.graph, Typ::Int { constant: 7 });
    let sum = op(&mut parser.graph, NodeKind::Add, seven, seven);
    let next = parser.graph.get_node(sum).unwrap().uid + 1;
    let folded = parser.idealize_node(sum).unwrap();
    let node = parser.graph.get_node(folded).unwrap();
    assert!(matches!(node.node_kind, NodeKind::Constant));
    assert_eq!(node.typ(), Typ::Int { constant: 14 });
    assert_eq!(node.uid, next + 2);
    assert!(node.inputs.is_empty());
    assert!(matches!(parser.idealize_node(9999), Err(SoNError::NodeIdNotExisting)));
}
