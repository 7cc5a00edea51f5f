use sea_of_nodes::errors::son_error::SoNError;
use sea_of_nodes::nodes::bound_node::BoundNode;
use sea_of_nodes::nodes::node::NodeKind;
use sea_of_nodes::services::parser::{Parser, KEEP_ALIVE_NID, SCOPE_NID, START_NID};
use sea_of_nodes::typ::typ::Typ;

#[test]
fn should_be_able_to_create_new_parser() {
    // Arrange & Act
    let parser = Parser::new_noarg("return 1;").unwrap();

    // Assert
    assert_eq!(3, parser.graph.len());
    assert!(matches!( parser.graph.get(START_NID).unwrap().as_ref().unwrap().node_kind, NodeKind::Start))
}

#[test]
fn should_parse_return() {
    // Arrange
    let mut parser = Parser::new_noarg("return 1;").unwrap();
    parser.do_optimize = false;

    // Act
    let result = parser.parse().unwrap();

    // Assert
    let node = parser.graph.get(result).unwrap().as_ref().unwrap();
    assert!(matches!(node.node_kind, NodeKind::Return));
    assert!(matches!(node.outputs.as_slice(), []));
    match node.inputs.as_slice() {
        [_, x] => {
            let dnode = parser.graph.get(*x).unwrap().as_ref().unwrap();
            assert!(matches!(dnode.typ(), Typ::Int { constant: 1 }));
            assert!(matches!(dnode.outputs.as_slice(), [y] if y.eq(&result) ));
        }
        _ => assert!(false)
    }
    println!("Parsing result is: {}", format!("{:}", BoundNode::new(&node, &parser.graph).to_string().unwrap()));
}

#[test]
fn should_drop_unused_nodes_but_never_the_keepalive_node() {
    // Arrange
    let mut parser = Parser::new_noarg("return 1;").unwrap();
    parser.do_optimize = false;

    // Act
    let _result = parser.parse().unwrap();

    // Assert
    assert_eq!(6, parser.graph.graph_iter().len());
    assert!(matches!( parser.graph.get(KEEP_ALIVE_NID).unwrap().as_ref().unwrap().node_kind, NodeKind::KeepAlive))
}

#[test]
fn should_not_drop_any_node_when_cap_is_0() {
    // Arrange
    let mut parser = Parser::new_noarg("return 1;").unwrap();
    parser.do_optimize = false;

    // Act
    let _result = parser.parse().unwrap();
    let dropped_nodes = parser.drop_unused_nodes_cap(0);

    // Assert
    assert_eq!(0, dropped_nodes);
    assert_eq!(6, parser.graph.graph_iter().len());
}

#[test]
fn should_only_drop_one_node_when_cap_is_1() {
    // Arrange
    let mut parser = Parser::new_noarg("return 1;").unwrap();
    parser.do_optimize = false;

    // Act
    let _result = parser.parse().unwrap();
    let dropped_nodes = parser.drop_unused_nodes_cap(1);

    // Assert
    assert_eq!(1, dropped_nodes);
    assert_eq!(5, parser.graph.graph_iter().len());
    assert!(matches!( parser.graph.get(START_NID).unwrap().as_ref().unwrap().node_kind, NodeKind::Start))
}

#[test]
fn should_fail_when_invalid_syntax_is_used() {
    // Arrange
    let mut parser = Parser::new_noarg("ret 1;").unwrap();
    parser.do_optimize = false;

    // Act
    let result = parser.parse();

    // Assert
    assert!(matches!(result, Err(SoNError::SyntaxExpected {expected, ..}) if expected == "="));
}

#[test]
fn should_check_for_semicolon() {
    // Arrange
    let mut parser = Parser::new_noarg("return 1").unwrap();
    parser.do_optimize = false;

    // Act
    let result = parser.parse();

    // Assert
    assert!(matches!(result, Err(SoNError::SyntaxExpected {expected, ..}) if expected == ";"));
}

#[test]
fn should_fail_at_brace() {
    // Arrange
    let mut parser = Parser::new_noarg("return 1;}").unwrap();
    parser.do_optimize = false;

    // Act
    let result = parser.parse();

    // Assert
    assert!(matches!(result, Err(SoNError::SyntaxExpected {expected, ..}) if expected == "End of file"));
}

#[test]
fn should_delete_nodes_that_arent_kept_alive() {
    // Arrange
    let mut parser = Parser::new_noarg("return 1;").unwrap();
    parser.do_optimize = false;
    let nid = parser.add_node_unrefined(vec![], NodeKind::Start).unwrap(); // this node is not kept

    // Act
    let _result = parser.parse();

    // Assert
    assert!(!parser.graph.node_exists_unique(nid, nid));
}

#[test]
fn should_parse_one_plus_one() {
    // Arrange
    let mut parser = Parser::new_noarg("return 1+1;").unwrap();
    parser.do_optimize = false;

    // Act
    let result = parser.parse().unwrap();

    // Assert
    let node = parser.graph.get(result).unwrap().as_ref().unwrap();
    assert_eq!("return (1+1);", format!("{:}", BoundNode::new(&node, &parser.graph).to_string().unwrap()));
}

#[test]
fn should_parse_one_minus_one() {
    // Arrange
    let mut parser = Parser::new_noarg("return 1-1;").unwrap();
    parser.do_optimize = false;

    // Act
    let result = parser.parse().unwrap();

    // Assert
    let node = parser.graph.get(result).unwrap().as_ref().unwrap();
    assert_eq!("return (1-1);", format!("{:}", BoundNode::new(&node, &parser.graph).to_string().unwrap()));
}

#[test]
fn should_parse_one_times_one() {
    // Arrange
    let mut parser = Parser::new_noarg("return 1*1;").unwrap();
    parser.do_optimize = false;

    // Act
    let result = parser.parse().unwrap();

    // Assert
    let node = parser.graph.get(result).unwrap().as_ref().unwrap();
    assert_eq!("return (1*1);", format!("{:}", BoundNode::new(&node, &parser.graph).to_string().unwrap()));
}

#[test]
fn should_parse_one_div_one() {
    // Arrange
    let mut parser = Parser::new_noarg("return 1/1;").unwrap();
    parser.do_optimize = false;

    // Act
    let result = parser.parse().unwrap();

    // Assert
    let node = parser.graph.get(result).unwrap().as_ref().unwrap();
    assert_eq!("return (1/1);", format!("{:}", BoundNode::new(&node, &parser.graph).to_string().unwrap()));
}

#[test]
fn should_parse_mul_and_add() {
    // Arrange
    let mut parser = Parser::new_noarg("return 1*2+3;").unwrap();
    parser.do_optimize = false;

    // Act
    let result = parser.parse().unwrap();

    // Assert
    let node = parser.graph.get(result).unwrap().as_ref().unwrap();
    assert_eq!("return ((1*2)+3);", format!("{:}", BoundNode::new(&node, &parser.graph).to_string().unwrap()));
}

#[test]
fn should_parse_mul_and_mul() {
    // Arrange
    let mut parser = Parser::new_noarg("return 1*2*3;").unwrap();
    parser.do_optimize = false;

    // Act
    let result = parser.parse().unwrap();

    // Assert
    let node = parser.graph.get(result).unwrap().as_ref().unwrap();
    assert_eq!("return (1*(2*3));", format!("{:}", BoundNode::new(&node, &parser.graph).to_string().unwrap()));
}

#[test]
fn should_parse_complex_expression() {
    // Arrange
    let mut parser = Parser::new_noarg("return 1+2*3+-5;").unwrap();
    parser.do_optimize = false;

    // Act
    let result = parser.parse().unwrap();

    // Assert
    let node = parser.graph.get_node(result).unwrap();
    assert_eq!("return (1+((2*3)+(-5)));", format!("{:}", BoundNode::new(&node, &parser.graph).to_string().unwrap()));
}

#[test]
fn should_peephole_computed_types() {
    // Arrange
    let mut parser = Parser::new_noarg("return 1+2*3+-5;").unwrap();

    // Act
    let result = parser.parse().unwrap();

    // Assert
    let node = parser.graph.get_node(result).unwrap();
    assert_eq!("return 2;", format!("{:}", BoundNode::new(&node, &parser.graph).to_string().unwrap()));
}

#[test]
fn should_define_var() {
    // Arrange
    let mut parser = Parser::new_noarg("").unwrap();
    parser.push_scope().unwrap();
    let nid = parser.add_node_unrefined(vec![], NodeKind::Constant).unwrap();

    // Act
    parser.define_var("x", nid).unwrap();

    // Assert
    assert!(matches!(parser.graph.get_node(nid).unwrap().outputs.as_slice(), [a] if a == &SCOPE_NID));
    assert!(matches!(parser.graph.get_node(SCOPE_NID).unwrap().inputs.as_slice(), [a] if a == &nid));
    if let NodeKind::Scope { scopes } = &parser.graph.get_node(SCOPE_NID).unwrap().node_kind {
        if let [ map ] = scopes.as_slice() {
            if let Some(a) = map.iter().find(|b| b.name == "x").map(|b| b.nid) {
                if a == nid {
                    return;
                }
            }
        }
    }
    panic!();
}

#[test]
fn should_define_var_in_program() {
    // Arrange
    let mut parser = Parser::new_noarg("int a=1; return a;").unwrap();

    // Act
    let result = parser.parse().unwrap();

    // Assert
    let node = parser.graph.get(result).unwrap().as_ref().unwrap();
    assert_eq!("return 1;", format!("{:}", BoundNode::new(&node, &parser.graph).to_string().unwrap()));
}

#[test]
fn should_return_error_on_variable_redefinition() {
    // Arrange
    let mut parser = Parser::new_noarg("int a=1;int a=1;").unwrap();

    // Act
    let result = parser.parse();

    // Assert
    assert!(matches!(result, Err(SoNError::VariableRedefinition { variable: v }) if v == "a"));
}

#[test]
fn should_return_error_on_undefined_variable() {
    // Arrange
    let mut parser = Parser::new_noarg("a=1;").unwrap();

    // Act
    let result = parser.parse();

    // Assert
    assert!(matches!(result, Err(SoNError::VariableUndefined { variable: v }) if v == "a"));
}

#[test]
fn should_have_ctrl_and_arg_defined() {
    // Arrange
    let mut parser = Parser::new("return arg;", 84).unwrap();
    parser.do_optimize = false;

    // Act
    let result = parser.parse().unwrap();

    // Assert
    let node = parser.graph.get_node(result).unwrap();
    let ctrl = parser.graph.get_node(*node.inputs.get(0).unwrap()).unwrap().clone();
    let arg = parser.graph.get_node(*node.inputs.get(1).unwrap()).unwrap().clone();

    assert!(matches!(ctrl.node_kind, NodeKind::Proj {..}));
    assert!(matches!(arg.node_kind, NodeKind::Proj {..}));
    assert!(matches!(ctrl.typ(), Typ::Ctrl));
    assert!(matches!(arg.typ(), Typ::Int { constant: 84 }));
}
