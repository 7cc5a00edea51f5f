use sea_of_nodes::errors::son_error::SoNError;
use sea_of_nodes::nodes::node::NodeKind;
use sea_of_nodes::services::parser::{keyword, Parser, KEEP_ALIVE_NID, SCOPE_NID, START_NID};
use sea_of_nodes::services::scope::name_less;
use sea_of_nodes::typ::typ::Typ;

fn parser() -> Parser {
    let mut parser = Parser::new_noarg("").unwrap();
    parser.do_optimize = false;
    parser
}

fn constant(parser: &mut Parser, value: i64) -> usize {
    parser.add_node(vec![], NodeKind::Constant, Typ::Int { constant: value }).unwrap()
}

fn names(parser: &Parser) -> Vec<Vec<(String, usize)>> {
    match &parser.graph.get_node(SCOPE_NID).unwrap().node_kind {
        NodeKind::Scope { scopes } => scopes
            .iter()
            .map(|level| level.iter().map(|b| (b.name.clone(), b.nid)).collect())
            .collect(),
        _ => panic!("no scope node"),
    }
}

#[test]
fn should_start_with_the_three_fixed_nodes() {
    let parser = Parser::new("return arg;", 5).unwrap();
    assert_eq!((KEEP_ALIVE_NID, SCOPE_NID, START_NID), (0, 1, 2));
    assert!(parser.do_optimize);
    assert_eq!(parser.src(), "{return arg;}");
    assert_eq!(parser._dbg_output, "");
    let keep = parser.graph.get_node(KEEP_ALIVE_NID).unwrap();
    let scope = parser.graph.get_node(SCOPE_NID).unwrap();
    let start = parser.graph.get_node(START_NID).unwrap();
    assert!(matches!(keep.node_kind, NodeKind::KeepAlive));
    assert!(matches!(&scope.node_kind, NodeKind::Scope { scopes } if scopes.is_empty()));
    assert!(matches!(start.node_kind, NodeKind::Start));
    assert_eq!(keep.inputs, vec![SCOPE_NID, START_NID]);
    assert_eq!(scope.outputs, vec![KEEP_ALIVE_NID]);
    assert_eq!(start.outputs, vec![KEEP_ALIVE_NID]);
    assert_eq!(start.typ(), Typ::Tuple { typs: vec![Typ::Ctrl, Typ::Int { constant: 5 }] });
    let noarg = Parser::new_noarg("").unwrap();
    assert_eq!(
        noarg.graph.get_node(START_NID).unwrap().typ(),
        Typ::Tuple { typs: vec![Typ::Ctrl, Typ::IntBot] }
    );
}

#[test]
fn should_look_names_up_from_the_innermost_level() {
    let mut p = parser();
    assert_eq!(p.get_var("x"), None);
    p.push_scope().unwrap();
    let outer = constant(&mut p, 1);
    p.define_var("x", outer).unwrap();
    let other = constant(&mut p, 2);
    p.define_var("y", other).unwrap();
    p.push_scope().unwrap();
    assert_eq!(p.get_var("x"), Some(outer));
    let inner = constant(&mut p, 3);
    p.define_var("x", inner).unwrap();
    assert_eq!(p.get_var("x"), Some(inner));
    assert_eq!(p.get_var("y"), Some(other));
    assert_eq!(p.get_var("z"), None);
    assert_eq!(p.ctrl(), None);
    p.pop_scope().unwrap();
    assert_eq!(p.get_var("x"), Some(outer));
}

#[test]
fn should_keep_each_level_in_the_order_of_its_names() {
    let mut p = parser();
    p.push_scope().unwrap();
    let mut bound = vec![];
    for name in ["m", "b", "z", "a", "ab", "B", "_"] {
        let nid = constant(&mut p, 1);
        p.define_var(name, nid).unwrap();
        bound.push((name, nid));
    }
    let level: Vec<String> = names(&p)[0].iter().map(|(n, _)| n.clone()).collect();
    assert_eq!(level, vec!["B", "_", "a", "ab", "b", "m", "z"]);
    for (name, nid) in bound {
        assert_eq!(p.get_var(name), Some(nid));
    }
    assert!(name_less("a", "ab"));
    assert!(name_less("B", "_"));
    assert!(!name_less("b", "ab"));
    assert!(!name_less("a", "a"));
    assert!(!name_less("a", ""));
    assert!(name_less("", "a"));
}

#[test]
fn should_refuse_a_second_binding_in_the_same_level() {
    let mut p = parser();
    p.push_scope().unwrap();
    let one = constant(&mut p, 1);
    p.define_var("x", one).unwrap();
    let two = constant(&mut p, 2);

    let result = p.define_var("x", two);

    assert!(matches!(result, Err(SoNError::VariableRedefinition { variable }) if variable == "x"));
    assert_eq!(names(&p), vec![vec![("x".to_string(), one)]]);
    assert_eq!(p.graph.get_node(SCOPE_NID).unwrap().inputs, vec![one]);
    assert!(p.graph.get_node(two).unwrap().outputs.is_empty());
}

#[test]
fn should_refuse_a_binding_without_a_level_or_a_node() {
    let mut p = parser();
    let one = constant(&mut p, 1);
    assert!(matches!(p.define_var("x", one), Err(SoNError::NodeIdNotExisting)));
    assert!(matches!(p.undefine_var("x"), Err(SoNError::NodeIdNotExisting)));
    assert!(matches!(p.pop_scope(), Err(SoNError::NodeIdNotExisting)));
    p.push_scope().unwrap();
    assert!(matches!(p.define_var("x", 99), Err(SoNError::NodeIdNotExisting)));
    assert!(matches!(p.undefine_var("x"), Err(SoNError::VariableUndefined { variable }) if variable == "x"));
    assert_eq!(names(&p), vec![vec![]]);
}

#[test]
fn should_undefine_in_the_innermost_level_only() {
    let mut p = parser();
    p.push_scope().unwrap();
    let one = constant(&mut p, 1);
    p.define_var("x", one).unwrap();
    let two = constant(&mut p, 2);
    p.define_var("y", two).unwrap();
    p.push_scope().unwrap();
    assert!(matches!(p.undefine_var("x"), Err(SoNError::VariableUndefined { .. })));
    p.pop_scope().unwrap();

    assert_eq!(p.undefine_var("x").unwrap(), one);

    assert_eq!(names(&p), vec![vec![("y".to_string(), two)]]);
    assert_eq!(p.graph.get_node(SCOPE_NID).unwrap().inputs, vec![two]);
    assert!(p.graph.get_node(one).unwrap().outputs.is_empty());
    assert_eq!(p.get_var("x"), None);
}

#[test]
fn should_release_the_bindings_of_a_closed_level() {
    let mut p = parser();
    p.push_scope().unwrap();
    let one = constant(&mut p, 1);
    p.define_var("x", one).unwrap();
    p.push_scope().unwrap();
    let two = constant(&mut p, 2);
    p.define_var("b", two).unwrap();
    p.define_var("a", two).unwrap();
    p.define_var("c", one).unwrap();
    assert_eq!(p.graph.get_node(SCOPE_NID).unwrap().inputs, vec![one, two, two, one]);
    assert_eq!(p.graph.get_node(two).unwrap().outputs, vec![SCOPE_NID, SCOPE_NID]);

    p.pop_scope().unwrap();

    assert_eq!(names(&p), vec![vec![("x".to_string(), one)]]);
    assert_eq!(p.graph.get_node(SCOPE_NID).unwrap().inputs, vec![one]);
    assert_eq!(p.graph.get_node(one).unwrap().outputs, vec![SCOPE_NID]);
    assert!(p.graph.get_node(two).unwrap().outputs.is_empty());
}

#[test]
fn should_pin_and_release_nodes() {
    let mut p = parser();
    let one = constant(&mut p, 1);
    p.keep_node(one).unwrap();
    p.keep_node(one).unwrap();
    assert_eq!(p.graph.get_node(KEEP_ALIVE_NID).unwrap().inputs, vec![SCOPE_NID, START_NID, one, one]);
    assert_eq!(p.graph.get_node(one).unwrap().outputs, vec![KEEP_ALIVE_NID, KEEP_ALIVE_NID]);
    assert_eq!(p.drop_unused_nodes(), 0);
    p.unkeep_node(one).unwrap();
    assert_eq!(p.drop_unused_nodes(), 0);
    assert_eq!(p.release(one, Ok(7)).unwrap(), 7);
    assert_eq!(p.graph.get_node(KEEP_ALIVE_NID).unwrap().inputs, vec![SCOPE_NID, START_NID]);
    assert!(matches!(p.keep_node(99), Err(SoNError::NodeIdNotExisting)));
    assert!(matches!(p.unkeep_node(99), Err(SoNError::NodeIdNotExisting)));
    assert!(matches!(p.release(99, Ok(7)), Err(SoNError::NodeIdNotExisting)));
    assert!(matches!(
        p.release(one, Err(SoNError::TypTransitionNotAllowed)),
        Err(SoNError::TypTransitionNotAllowed)
    ));
    assert_eq!(p.drop_unused_nodes(), 1);
    assert!(!p.graph.node_exists(one));
}

#[test]
fn should_drop_a_node_with_the_inputs_it_alone_observed() {
    let mut p = parser();
    let one = constant(&mut p, 1);
    p.keep_node(one).unwrap();
    let two = constant(&mut p, 2);
    p.keep_node(two).unwrap();
    let sum = p.add_node_unrefined(vec![one, two], NodeKind::Add).unwrap();
    p.keep_node(sum).unwrap();
    let neg = p.add_node_unrefined(vec![sum], NodeKind::Minus).unwrap();
    p.unkeep_node(sum).unwrap();
    p.unkeep_node(two).unwrap();
    assert_eq!(p.graph.graph_iter().len(), 7);

    assert_eq!(p.attempt_drop_node(KEEP_ALIVE_NID, 10), 0);
    assert_eq!(p.attempt_drop_node(sum, 10), 0);
    assert_eq!(p.attempt_drop_node(neg, 0), 0);
    assert_eq!(p.attempt_drop_node(99, 10), 0);
    assert_eq!(p.attempt_drop_node(neg, 10), 3);

    assert!(p.graph.node_exists(one));
    assert!(!p.graph.node_exists(two));
    assert!(!p.graph.node_exists(sum));
    assert!(!p.graph.node_exists(neg));
    assert_eq!(p.graph.get_node(one).unwrap().outputs, vec![KEEP_ALIVE_NID]);
    assert_eq!(p.graph.graph_iter().len(), 4);
}

#[test]
fn should_stop_dropping_when_the_budget_is_used_up() {
    let mut p = parser();
    let one = constant(&mut p, 1);
    p.keep_node(one).unwrap();
    let neg = p.add_node_unrefined(vec![one], NodeKind::Minus).unwrap();
    p.unkeep_node(one).unwrap();

    assert_eq!(p.attempt_drop_node(neg, 1), 1);

    assert!(!p.graph.node_exists(one));
    assert!(p.graph.node_exists(neg));
    assert_eq!(p.graph.get_node(neg).unwrap().inputs, vec![one]);
    assert_eq!(p.drop_unused_nodes_cap(5), 1);
    assert!(!p.graph.node_exists(neg));
    assert_eq!(p.drop_unused_nodes_cap(5), 0);
}

#[test]
fn should_leave_every_node_but_the_last_with_an_observer() {
    for program in ["return 1;", "int a=1; int b=a+arg; { int c=b*2; } a=b*a; return a+b;", "return arg*arg+1;"] {
        for optimize in [false, true] {
            let mut p = Parser::new_noarg(program).unwrap();
            p.do_optimize = optimize;
            let terminal = p.parse().unwrap();
            for node in p.graph.graph_iter() {
                if node.nid != KEEP_ALIVE_NID && node.nid != terminal {
                    assert!(!node.outputs.is_empty());
                }
                for input in node.inputs.iter() {
                    assert!(p.graph.node_exists(*input));
                }
            }
            assert!(p.graph.get_node(terminal).unwrap().outputs.is_empty());
            for node in p.graph.graph_iter() {
                let mut at = node.nid;
                let mut steps = 0;
                while at != KEEP_ALIVE_NID && at != terminal {
                    at = p.graph.get_node(at).unwrap().outputs[0];
                    steps += 1;
                    assert!(steps <= p.graph.len());
                }
            }
            assert_eq!(p.drop_unused_nodes_cap(1), 1);
        }
    }
}

#[test]
fn should_know_the_keywords() {
    assert!(keyword(&"int".to_string()));
    assert!(keyword(&"return".to_string()));
    assert!(!keyword(&"Int".to_string()));
    assert!(!keyword(&"returns".to_string()));
    assert!(!keyword(&"".to_string()));
}
