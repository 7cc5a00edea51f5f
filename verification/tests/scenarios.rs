use sea_of_nodes::errors::son_error::SoNError;
use sea_of_nodes::nodes::bound_node::BoundNode;
use sea_of_nodes::nodes::graph::Graph;
use sea_of_nodes::nodes::node::{CompNodeKind, NodeKind};
use sea_of_nodes::services::parser::Parser;
use sea_of_nodes::typ::typ::Typ;

fn render(program: &str, optimize: bool) -> String {
    let mut parser = Parser::new_noarg(program).unwrap();
    parser.do_optimize = optimize;
    let result = parser.parse().unwrap();
    let node = parser.graph.get_node(result).unwrap();
    BoundNode::new(node, &parser.graph).to_string().unwrap()
}

fn failure(program: &str) -> SoNError {
    let mut parser = Parser::new_noarg(program).unwrap();
    parser.parse().unwrap_err()
}

#[test]
fn should_return_one() {
    assert_eq!(render("return 1;", true), "return 1;");
}

#[test]
fn should_fold_the_expression_to_two() {
    assert_eq!(render("return 1+2*3+-5;", true), "return 2;");
}

#[test]
fn should_keep_the_expression_with_the_optimizer_off() {
    assert_eq!(render("return 1+2*3+-5;", false), "return (1+((2*3)+(-5)));");
}

#[test]
fn should_return_the_value_of_a_variable() {
    assert_eq!(render("int a=1; return a;", true), "return 1;");
}

#[test]
fn should_fold_the_squared_distance() {
    assert_eq!(
        render(
            "{ int x0=1; int y0=2; int x1=3; int y1=4; return (x0-x1)*(x0-x1) + (y0-y1)*(y0-y1); }",
            true
        ),
        "return 8;"
    );
}

#[test]
fn should_fold_the_exclusive_or_of_a_constant_with_itself() {
    let mut parser = Parser::new_noarg("").unwrap();
    parser.push_scope().unwrap();
    let ctrl = parser
        .add_node_unrefined(vec![2], NodeKind::Proj { proj_index: 0, _dbg_proj_label: "$ctrl".to_string() })
        .unwrap();
    parser.define_var("$ctrl", ctrl).unwrap();
    let one = parser.add_node(vec![], NodeKind::Constant, Typ::Int { constant: 1 }).unwrap();
    parser.keep_node(one).unwrap();
    let other = parser.add_node(vec![], NodeKind::Constant, Typ::Int { constant: 1 }).unwrap();
    parser.keep_node(other).unwrap();
    let xor = parser
        .add_node_unrefined(vec![one, other], NodeKind::Comp { kind: CompNodeKind::LogXor })
        .unwrap();
    parser.unkeep_node(other).unwrap();
    parser.unkeep_node(one).unwrap();
    let ret = parser.add_node_unrefined(vec![ctrl, xor], NodeKind::Return).unwrap();
    let node = parser.graph.get_node(ret).unwrap();
    assert_eq!(BoundNode::new(node, &parser.graph).to_string().unwrap(), "return 0;");
}

#[test]
fn should_have_no_sign_for_the_exclusive_or_in_the_grammar() {
    assert!(matches!(
        failure("return 1 ^ 1;"),
        SoNError::SyntaxExpected { expected, but_got } if expected == ";" && but_got == "^"
    ));
}

#[test]
fn should_fail_on_the_control_node_as_an_operand() {
    let mut parser = Parser::new_noarg("return 0 + $ctrl;").unwrap();
    let error = parser.parse().unwrap_err();
    assert!(matches!(
        &error,
        SoNError::SyntaxExpected { expected, but_got } if expected == "Identifier" && but_got == "$"
    ));
    let placed = error.attach_context(&parser);
    assert_eq!((placed.line, placed.col), (1, 13));
    assert!(matches!(placed.error, SoNError::SyntaxExpected { .. }));
    assert_eq!(Typ::Ctrl.meet(&Typ::Int { constant: 0 }), Typ::Bot);
}

#[test]
fn should_count_both_edges_of_a_sum_of_a_constant_with_itself() {
    let mut graph = Graph::new();
    let constant = graph.new_node(vec![], NodeKind::Constant, Typ::Int { constant: 4 }).unwrap();
    let sum = graph.new_node(vec![constant, constant], NodeKind::Add, Typ::Bot).unwrap();
    assert_eq!(graph.get_node(constant).unwrap().outputs.len(), 2);
    graph.remove_dependency_br(sum, constant).unwrap();
    assert_eq!(graph.get_node(constant).unwrap().outputs.len(), 1);
}

#[test]
fn should_read_variables_of_outer_blocks() {
    assert_eq!(render("int a=2; { int b=a*3; return b+a; }", true), "return 8;");
    assert_eq!(render("int a=2; { int a=5; a=a+1; } return a;", true), "return 2;");
    assert_eq!(render("int a=2; a=a+arg; return a;", false), "return (2+arg);");
}

#[test]
fn should_refuse_assignments_to_names_of_outer_blocks() {
    assert!(matches!(
        failure("int a=2; { a=3; } return a;"),
        SoNError::VariableUndefined { variable } if variable == "a"
    ));
}

#[test]
fn should_take_the_argument_as_a_constant() {
    let mut parser = Parser::new("return arg*2+1;", 20).unwrap();
    let result = parser.parse().unwrap();
    let node = parser.graph.get_node(result).unwrap();
    assert_eq!(BoundNode::new(node, &parser.graph).to_string().unwrap(), "return 41;");
}

#[test]
fn should_report_syntax_errors() {
    assert!(matches!(failure("int return=1;"), SoNError::SyntaxExpected { expected, but_got } if expected == "Identifier" && but_got == "="));
    assert!(matches!(failure("int 1=1;"), SoNError::SyntaxExpected { expected, but_got } if expected == "Identifier" && but_got == "1"));
    assert!(matches!(failure("return (1+2;"), SoNError::SyntaxExpected { expected, but_got } if expected == ")" && but_got == ";"));
    assert!(matches!(failure("return 1"), SoNError::SyntaxExpected { expected, but_got } if expected == ";" && but_got == "}"));
    assert!(matches!(failure(""), SoNError::SyntaxExpected { expected, but_got } if expected == "Identifier" && but_got == "}"));
    assert!(matches!(failure("return 01;"), SoNError::NumberCannotStartWith0));
    assert!(matches!(failure("return x;"), SoNError::VariableUndefined { variable } if variable == "x"));
    assert!(matches!(failure("return 99999999999999999999;"), SoNError::SyntaxExpected { expected, .. } if expected == "Integer literal"));
    assert!(matches!(failure("{ return 1;"), SoNError::SyntaxExpected { expected, but_got } if expected == "}" && but_got == ""));
}

#[test]
fn should_pass_over_the_debug_directive() {
    let mut parser = Parser::new_noarg("#showGraph; int a=1;\n#showGraph; return a;").unwrap();
    parser.do_optimize = false;
    let result = parser.parse().unwrap();
    let node = parser.graph.get_node(result).unwrap();
    assert_eq!(BoundNode::new(node, &parser.graph).to_string().unwrap(), "return 1;");
    let output = parser._dbg_output.clone();
    assert!(output.starts_with("#showGraph@1:13\ndigraph mygraph{\n"));
    assert_eq!(output.matches("digraph mygraph{").count(), 2);
    assert!(output.contains("}\n#showGraph@2:12\ndigraph mygraph{\n"));
    assert!(output.contains("<TD PORT=\"Node_1_1_a\">a</TD>"));
}

#[test]
fn should_only_move_types_up() {
    let mut parser = Parser::new("int a=arg+1; int b=a*a; return b-a;", 3).unwrap();
    parser.do_optimize = false;
    parser.parse().unwrap();
    for node in parser.graph.graph_iter() {
        assert!(Typ::Bot.transition_allowed(&node.typ()));
    }
    let mut graph = Graph::new();
    let k = graph.new_node(vec![], NodeKind::Constant, Typ::IntBot).unwrap();
    assert!(graph.get_node_mut(k).unwrap().refine_typ(Typ::Int { constant: 1 }).is_ok());
    assert!(graph.get_node_mut(k).unwrap().refine_typ(Typ::IntBot).is_err());
    assert_eq!(graph.get_node(k).unwrap().typ(), Typ::Int { constant: 1 });
}

#[test]
fn should_report_the_debug_directive_in_place_of_a_statement() {
    let mut parser = Parser::new_noarg("").unwrap();
    parser.lexer = sea_of_nodes::services::lexer::Lexer::from_str("  #showGraph; return 1;");
    let nodes = parser.graph.graph_iter().len();

    let result = parser.parse_statement();

    assert!(matches!(result, Err(SoNError::DebugPropagateControlFlowUpward)));
    assert_eq!(parser.lexer.position(), 13);
    assert_eq!(parser.graph.graph_iter().len(), nodes);
    assert!(parser._dbg_output.starts_with("#showGraph@1:14\ndigraph mygraph{\n/*\n  #showGraph; return 1;\n*/\n"));
    assert!(parser._dbg_output.ends_with("}\n"));
}

#[test]
fn should_build_the_nodes_that_the_statements_ask_for() {
    let mut parser = Parser::new("int a = arg - 2; return -a / 3;", 11).unwrap();
    parser.do_optimize = false;
    let result = parser.parse().unwrap();
    let ret = parser.graph.get_node(result).unwrap();
    assert!(matches!(ret.node_kind, NodeKind::Return));
    let ctrl = parser.graph.get_node(ret.inputs[0]).unwrap();
    assert!(matches!(&ctrl.node_kind, NodeKind::Proj { proj_index: 0, _dbg_proj_label } if _dbg_proj_label == "$ctrl"));
    assert_eq!(ctrl.inputs, vec![2]);
    let div = parser.graph.get_node(ret.inputs[1]).unwrap();
    assert!(matches!(div.node_kind, NodeKind::Div));
    assert_eq!(div.typ(), Typ::Int { constant: -3 });
    let minus = parser.graph.get_node(div.inputs[0]).unwrap();
    assert!(matches!(minus.node_kind, NodeKind::Minus));
    let sub = parser.graph.get_node(minus.inputs[0]).unwrap();
    assert!(matches!(sub.node_kind, NodeKind::Sub));
    assert_eq!(sub.typ(), Typ::Int { constant: 9 });
    let arg = parser.graph.get_node(sub.inputs[0]).unwrap();
    assert!(matches!(&arg.node_kind, NodeKind::Proj { proj_index: 1, _dbg_proj_label } if _dbg_proj_label == "arg"));
    let three = parser.graph.get_node(div.inputs[1]).unwrap();
    assert!(matches!(three.node_kind, NodeKind::Constant));
    assert_eq!(three.typ(), Typ::Int { constant: 3 });
    assert_eq!(BoundNode::new(ret, &parser.graph).to_string().unwrap(), "return ((-(arg-2))/3);");
}

#[test]
fn should_read_the_program_to_its_end_with_white_space() {
    assert_eq!(render("  int a = 1 ;\n\treturn ( a + 2 ) ;  \n", false), "return (1+2);");
    assert_eq!(render("{ return 1; } ", true), "return 1;");
    assert!(matches!(
        failure("return 1; 2"),
        SoNError::SyntaxExpected { expected, but_got } if expected == "Identifier" && but_got == "2"
    ));
}

fn returned_value_typ(program: &str, optimize: bool) -> Typ {
    let mut parser = Parser::new_noarg(program).unwrap();
    parser.do_optimize = optimize;
    let result = parser.parse().unwrap();
    let node = parser.graph.get_node(result).unwrap();
    assert!(matches!(node.node_kind, NodeKind::Return));
    assert_eq!(node.inputs.len(), 2);
    let value = parser.graph.get_node(node.inputs[1]).unwrap();
    assert!(value.outputs.contains(&result));
    value.typ()
}

#[test]
fn should_give_the_returned_value_its_folded_type_with_the_optimizer_on_or_off() {
    let programs: [(&str, i64); 6] = [
        ("return 1;", 1),
        ("return 1+2*3+-5;", 2),
        ("int a=1; return a;", 1),
        ("int a=7; int b=a*a; { int a=2; int c=a; } a=a-b/2; return -a+(b-1);", 65),
        ("{ int x0=1; int y0=2; int x1=3; int y1=4; return (x0-x1)*(x0-x1) + (y0-y1)*(y0-y1); }", 8),
        ("int a=3; { return a*a; } #showGraph;", 9),
    ];
    for (program, expected) in programs {
        assert_eq!(returned_value_typ(program, true), Typ::Int { constant: expected });
        assert_eq!(returned_value_typ(program, false), Typ::Int { constant: expected });
    }
}

#[test]
fn should_leave_the_type_of_a_value_open_where_the_argument_is_not_known() {
    assert_eq!(returned_value_typ("return arg;", true), Typ::IntBot);
    assert_eq!(returned_value_typ("return arg+1;", false), Typ::Bot);
    let mut parser = Parser::new("return arg*2;", 21).unwrap();
    let result = parser.parse().unwrap();
    let value = parser.graph.get_node(result).unwrap().inputs[1];
    assert_eq!(parser.graph.get_node(value).unwrap().typ(), Typ::Int { constant: 42 });
}

#[test]
fn should_return_a_constant_where_the_program_folds() {
    let programs: [(&str, i64, &str); 4] = [
        ("return 1;", 1, "return 1;"),
        ("return 1+2*3+-5;", 2, "return 2;"),
        ("int a=1; { int a=2; return a; }", 2, "return 2;"),
        ("int a=7; int b=a*a; a=a-b/2; return -a+(b-1);", 65, "return 65;"),
    ];
    for (program, expected, text) in programs {
        let mut parser = Parser::new_noarg(program).unwrap();
        let before = parser.graph.get_node(0).unwrap().uid;
        assert_eq!(before, 0);
        let result = parser.parse().unwrap();
        let node = parser.graph.get_node(result).unwrap();
        let value = parser.graph.get_node(node.inputs[1]).unwrap();
        assert!(matches!(value.node_kind, NodeKind::Constant));
        assert!(value.inputs.is_empty());
        assert_eq!(value.typ(), Typ::Int { constant: expected });
        assert_eq!(BoundNode::new(node, &parser.graph).to_string().unwrap(), text);
    }
}

#[test]
fn should_use_two_unique_ids_for_each_character_at_most() {
    let programs = [
        "return 1;",
        "return 1+2*3+-5;",
        "int a=1; int b=a+2; { int c=b*2; } return -a-b;",
        "return ((((1))))-(-(-(2)));",
    ];
    for program in programs {
        for optimize in [true, false] {
            let mut parser = Parser::new_noarg(program).unwrap();
            parser.do_optimize = optimize;
            let result = parser.parse().unwrap();
            let newest = parser.graph.graph_iter().iter().map(|n| n.uid).max().unwrap();
            assert!(newest < 3 + 2 * (program.len() + 2) + 4);
            assert!(parser.graph.get_node(result).is_ok());
        }
    }
}

#[test]
fn should_leave_only_what_the_result_needs() {
    let mut parser =
        Parser::new_noarg("int a=1; int b=a+arg; { int c=b*2; } a=b*a; return a+b;").unwrap();
    let result = parser.parse().unwrap();
    assert_eq!(parser.graph.get_node(0).unwrap().inputs, vec![1, 2]);
    assert!(parser.graph.get_node(1).unwrap().inputs.is_empty());
    assert!(parser.graph.get_node(2).unwrap().inputs.is_empty());
    for node in parser.graph.graph_iter() {
        if node.nid <= 2 {
            continue;
        }
        let mut at = node.nid;
        let mut steps = 0;
        while at != result {
            let outputs = &parser.graph.get_node(at).unwrap().outputs;
            assert!(!outputs.is_empty());
            at = *outputs.iter().find(|o| **o > 1).unwrap();
            steps += 1;
            assert!(steps < 1000);
        }
    }
}

#[test]
fn should_keep_the_inputs_of_the_scope_node_while_a_node_is_added() {
    let mut parser = Parser::new_noarg("").unwrap();
    parser.push_scope().unwrap();
    let nid = parser.add_node_unrefined(vec![], NodeKind::Constant).unwrap();
    assert!(parser.graph.get_node(1).unwrap().inputs.is_empty());
    assert!(parser.graph.get_node(nid).unwrap().outputs.is_empty());
    parser.define_var("x", nid).unwrap();
    assert_eq!(parser.graph.get_node(nid).unwrap().outputs, vec![1]);
    assert_eq!(parser.graph.get_node(1).unwrap().inputs, vec![nid]);
    assert_eq!(parser.get_var("x"), Some(nid));
}
