use sea_of_nodes::nodes::bound_node::BoundNode;
use sea_of_nodes::nodes::graph::Graph;
use sea_of_nodes::nodes::node::{Binding, CompNodeKind, Node, NodeKind};
use sea_of_nodes::services::dotvis::{as_dotfile, node_icon};
use sea_of_nodes::services::parser::Parser;
use sea_of_nodes::services::text::{
    chars_of, push_chars, push_decimal, push_signed_decimal, string_of,
};
use sea_of_nodes::typ::typ::Typ;

fn text(graph: &Graph, nid: usize) -> Option<String> {
    BoundNode::new(graph.get_node(nid).unwrap(), graph).to_string()
}

#[test]
fn should_show_constants_by_their_type() {
    let mut g = Graph::new();
    let cases = vec![
        (Typ::Int { constant: 0 }, "0"),
        (Typ::Int { constant: 42 }, "42"),
        (Typ::Int { constant: -17 }, "-17"),
        (Typ::Int { constant: i64::MAX }, "9223372036854775807"),
        (Typ::Int { constant: i64::MIN }, "-9223372036854775808"),
        (Typ::Bool { constant: true }, "true"),
        (Typ::Bool { constant: false }, "false"),
        (Typ::Top, "Top"),
        (Typ::Bot, "Bot"),
        (Typ::IntBot, "IntBot"),
    ];
    for (typ, expected) in cases {
        let n = g.new_node(vec![], NodeKind::Constant, typ).unwrap();
        assert_eq!(text(&g, n).unwrap(), expected);
    }
}

#[test]
fn should_show_each_kind() {
    let mut g = Graph::new();
    let a = g.new_node(vec![], NodeKind::Constant, Typ::Int { constant: 1 }).unwrap();
    let b = g.new_node(vec![], NodeKind::Constant, Typ::Int { constant: 2 }).unwrap();
    let t = g.new_node(vec![], NodeKind::Constant, Typ::Bool { constant: true }).unwrap();
    let cases = vec![
        (NodeKind::Add, "(1+2)"),
        (NodeKind::Sub, "(1-2)"),
        (NodeKind::Mul, "(1*2)"),
        (NodeKind::Div, "(1/2)"),
        (NodeKind::Return, "return 2;"),
        (NodeKind::Comp { kind: CompNodeKind::LT }, "1 < 2"),
        (NodeKind::Comp { kind: CompNodeKind::LEQ }, "1 <= 2"),
        (NodeKind::Comp { kind: CompNodeKind::EQ }, "1 == 2"),
        (NodeKind::Comp { kind: CompNodeKind::LogAnd }, "1 & 2"),
        (NodeKind::Comp { kind: CompNodeKind::LogOr }, "1 | 2"),
        (NodeKind::Comp { kind: CompNodeKind::LogXor }, "1 ^ 2"),
    ];
    for (kind, expected) in cases {
        let n = g.new_node(vec![a, b], kind, Typ::Bot).unwrap();
        assert_eq!(text(&g, n).unwrap(), expected);
    }
    let and = g.new_node(vec![t, t], NodeKind::Comp { kind: CompNodeKind::LogAnd }, Typ::Bot).unwrap();
    let or = g.new_node(vec![t, t], NodeKind::Comp { kind: CompNodeKind::LogOr }, Typ::Bot).unwrap();
    assert_eq!(text(&g, and).unwrap(), "true && true");
    assert_eq!(text(&g, or).unwrap(), "true || true");
    let odd_and = g.new_node(vec![a, t], NodeKind::Comp { kind: CompNodeKind::LogAnd }, Typ::Bot).unwrap();
    let odd_or = g.new_node(vec![a, t], NodeKind::Comp { kind: CompNodeKind::LogOr }, Typ::Bot).unwrap();
    assert_eq!(text(&g, odd_and).unwrap(), "1Unsupported LogAnd comparison Typtrue");
    assert_eq!(text(&g, odd_or).unwrap(), "1Unsupported LogOr comparison Typtrue");
    let minus = g.new_node(vec![a], NodeKind::Minus, Typ::Bot).unwrap();
    let not = g.new_node(vec![a], NodeKind::Not, Typ::Bot).unwrap();
    let start = g.new_node(vec![], NodeKind::Start, Typ::Bot).unwrap();
    let keep = g.new_node(vec![], NodeKind::KeepAlive, Typ::Bot).unwrap();
    let proj = g
        .new_node(vec![start], NodeKind::Proj { proj_index: 0, _dbg_proj_label: "$ctrl".to_string() }, Typ::Bot)
        .unwrap();
    assert_eq!(text(&g, minus).unwrap(), "(-1)");
    assert_eq!(text(&g, not).unwrap(), "");
    assert_eq!(text(&g, start).unwrap(), "Start()");
    assert_eq!(text(&g, keep).unwrap(), "KeepAlive()");
    assert_eq!(text(&g, proj).unwrap(), "$ctrl");
}

#[test]
fn should_show_the_scope_node_with_its_levels() {
    let mut parser = Parser::new("", 7).unwrap();
    parser.do_optimize = false;
    assert_eq!(text(&parser.graph, 1).unwrap(), "Scope()");
    parser.push_scope().unwrap();
    assert_eq!(text(&parser.graph, 1).unwrap(), "Scope([])");
    let one = parser.add_node(vec![], NodeKind::Constant, Typ::Int { constant: 1 }).unwrap();
    parser.define_var("y", one).unwrap();
    let two = parser.add_node(vec![], NodeKind::Constant, Typ::Int { constant: 2 }).unwrap();
    parser.define_var("x", two).unwrap();
    parser.push_scope().unwrap();
    let sum = parser.add_node_unrefined(vec![one, two], NodeKind::Add).unwrap();
    parser.define_var("z", sum).unwrap();
    assert_eq!(text(&parser.graph, 1).unwrap(), "Scope([x: 2, y: 1][z: (1+2)])");
}

#[test]
fn should_have_no_text_for_a_node_with_a_missing_input() {
    let mut g = Graph::new();
    let a = g.new_node(vec![], NodeKind::Constant, Typ::Int { constant: 1 }).unwrap();
    let sum = g.new_node(vec![a, a], NodeKind::Add, Typ::Bot).unwrap();
    *g.get_mut(a).unwrap() = None;
    assert_eq!(text(&g, sum), None);
    let mut lonely = Node::new(NodeKind::Minus, 7, 7, Typ::Bot);
    assert_eq!(BoundNode::new(&lonely, &g).to_string(), None);
    lonely.inputs = vec![sum];
    assert_eq!(lonely.bind(&g).to_string(), None);
}

#[test]
fn should_have_no_text_for_a_node_that_is_its_own_input() {
    let mut g = Graph::new();
    let a = g.new_node(vec![], NodeKind::Constant, Typ::Int { constant: 1 }).unwrap();
    let minus = g.new_node(vec![a], NodeKind::Minus, Typ::Bot).unwrap();
    g.get_node_mut(minus).unwrap().inputs[0] = minus;
    assert_eq!(text(&g, minus), None);
}

#[test]
fn should_label_nodes_in_the_drawing() {
    let cases = vec![
        (NodeKind::Constant, Typ::Int { constant: 5 }, "#5"),
        (NodeKind::Constant, Typ::Bool { constant: true }, "#true"),
        (NodeKind::Return, Typ::Bot, "Return"),
        (NodeKind::Start, Typ::Bot, "Start"),
        (NodeKind::KeepAlive, Typ::Bot, "KeepAlive"),
        (NodeKind::Add, Typ::Bot, "+"),
        (NodeKind::Sub, Typ::Bot, "-"),
        (NodeKind::Mul, Typ::Bot, "*"),
        (NodeKind::Div, Typ::Bot, "/"),
        (NodeKind::Minus, Typ::Bot, "-"),
        (NodeKind::Scope { scopes: vec![vec![Binding { name: "a".to_string(), nid: 1 }]] }, Typ::Bot, "Scope"),
        (NodeKind::Proj { proj_index: 1, _dbg_proj_label: "arg".to_string() }, Typ::Bot, "arg"),
        (NodeKind::Comp { kind: CompNodeKind::LEQ }, Typ::Bot, "<="),
        (NodeKind::Not, Typ::Bot, "!"),
    ];
    for (kind, typ, expected) in cases {
        assert_eq!(node_icon(&Node::new(kind, 0, 0, typ)), expected);
    }
}

#[test]
fn should_draw_a_new_parser() {
    let parser = Parser::new_noarg("").unwrap();

    let dotfile = as_dotfile(&parser);

    assert_eq!(dotfile, "digraph mygraph{\n/*\n{}\n*/\n\trankdir=BT;\n\tordering=\"in\";\n\tconcentrate=\"true\";\n\tsubgraph cluster_Nodes {\n\t\tNode_2 [ shape=box style=filled fillcolor=yellow label=\"Start\" ];\n\t}\n\tnode [shape=plaintext];\n\tedge [ fontname=Helvetica, fontsize=8 ];\n\tedge [style=dashed color=cornflowerblue];\n}\n");
}

#[test]
fn should_draw_nodes_edges_and_scopes() {
    let mut parser = Parser::new_noarg("return 1;").unwrap();
    parser.do_optimize = false;
    parser.push_scope().unwrap();
    let ctrl = parser
        .add_node_unrefined(vec![2], NodeKind::Proj { proj_index: 0, _dbg_proj_label: "$ctrl".to_string() })
        .unwrap();
    parser.define_var("$ctrl", ctrl).unwrap();
    let one = parser.add_node(vec![], NodeKind::Constant, Typ::Int { constant: 1 }).unwrap();
    parser.define_var("a", one).unwrap();
    parser.keep_node(one).unwrap();
    let ret = parser.add_node_unrefined(vec![ctrl, one], NodeKind::Return).unwrap();
    parser.unkeep_node(one).unwrap();
    assert_eq!((ctrl, one, ret), (3, 4, 5));

    let dotfile = parser.as_dotfile();

    let expected = [
        "digraph mygraph{\n/*\n{return 1;}\n*/\n\trankdir=BT;\n\tordering=\"in\";\n\tconcentrate=\"true\";\n",
        "\tsubgraph cluster_Nodes {\n",
        "\t\tNode_2 [ shape=box style=filled fillcolor=yellow label=\"Start\" ];\n",
        "\t\tNode_3 [ shape=box style=filled fillcolor=yellow label=\"$ctrl\" ];\n",
        "\t\tNode_4 [ label=\"#1\" ];\n",
        "\t\tNode_5 [ shape=box style=filled fillcolor=yellow label=\"Return\" ];\n",
        "\t}\n",
        "\tnode [shape=plaintext];\n",
        "\tsubgraph cluster_Node_1_0 {\n\t\tNode_1_0 [label=<\n\t\t\t<TABLE BORDER=\"0\" CELLBORDER=\"1\" CELLSPACING=\"0\">\n\t\t\t<TR><TD BGCOLOR=\"cyan\">0</TD>",
        "<TD PORT=\"Node_1_0_$ctrl\">$ctrl</TD><TD PORT=\"Node_1_0_a\">a</TD>",
        "</TR>\n\t\t\t</TABLE>>];\n",
        "\t}\n",
        "\tedge [ fontname=Helvetica, fontsize=8 ];\n",
        "\tNode_3 -> Node_2[taillabel=0 color=red];\n",
        "\tNode_5 -> Node_3[taillabel=0 color=red];\n",
        "\tNode_5 -> Node_4[taillabel=1];\n",
        "\tedge [style=dashed color=cornflowerblue];\n",
        "\tNode_1_0:\"Node_1_0_$ctrl\" -> Node_3;\n",
        "\tNode_1_0:\"Node_1_0_a\" -> Node_4;\n",
        "}\n",
    ]
    .concat();
    assert_eq!(dotfile, expected);
}

#[test]
fn should_draw_the_edge_from_a_constant_to_the_start_node_dotted() {
    let mut parser = Parser::new_noarg("").unwrap();
    parser.do_optimize = false;
    let constant = parser.add_node(vec![2], NodeKind::Constant, Typ::Int { constant: 1 }).unwrap();

    let dotfile = parser.as_dotfile();

    assert!(dotfile.contains(&format!("\tNode_{} -> Node_2[taillabel=0 style=dotted];\n", constant)));
}

#[test]
fn should_write_numbers_and_characters() {
    let chars = chars_of("héllo");
    assert_eq!(chars, vec!['h', 'é', 'l', 'l', 'o']);
    assert_eq!(string_of(&chars, 1, 4), "éll");
    assert_eq!(string_of(&chars, 2, 2), "");
    let mut out = String::from("x");
    push_chars(&mut out, &chars, 0, 2);
    push_decimal(&mut out, 0);
    push_decimal(&mut out, 907);
    push_decimal(&mut out, u64::MAX);
    push_signed_decimal(&mut out, -40);
    push_signed_decimal(&mut out, 7);
    assert_eq!(out, "xhé090718446744073709551615-407");
}

#[test]
fn should_remove_every_occurrence() {
    let mut list = vec![3, 1, 3, 2, 3];
    sea_of_nodes::nodes::graph::remove_all(&mut list, 3);
    assert_eq!(list, vec![1, 2]);
    sea_of_nodes::nodes::graph::remove_all(&mut list, 9);
    assert_eq!(list, vec![1, 2]);
}
