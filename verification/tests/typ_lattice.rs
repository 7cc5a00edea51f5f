use sea_of_nodes::typ::typ::Typ;
use sea_of_nodes::typ::typ::Typ::{Bot, Ctrl, Int, IntBot, IntTop, Top, TupleBot, TupleTop};

#[test]
fn should_meet_top_and_bot() {
    // Arrange & Act
    let result = Top.meet(&Bot);

    // Assert
    assert!(matches!(result, Bot));
}

#[test]
fn should_join_top_and_bot() {
    // Arrange & Act
    let result = Top.join(&Bot);

    // Assert
    assert!(matches!(result, Top));
}

#[test]
fn should_meet_top_and_int_top() {
    // Arrange & Act
    let result = Top.meet(&IntTop);

    // Assert
    assert!(matches!(result, IntTop));
}

#[test]
fn should_meet_ctrl_and_tuple_top() {
    // Arrange & Act
    let result = Ctrl.meet(&TupleTop);

    // Assert
    assert!(matches!(result, Bot));
}

#[test]
fn should_join_int_and_tuple_top() {
    // Arrange & Act
    let result = Int { constant: 84 }.join(&TupleTop);

    // Assert
    assert!(matches!(result, Top));
}

#[test]
fn should_allow_transition_from_bot_to_int() {
    // Arrange & Act
    let result = Bot.transition_allowed(&Int { constant: 84 });

    // Assert
    assert!(result);
}

#[test]
fn should_not_allow_transition_from_int_to_bot() {
    // Arrange & Act
    let result = Int { constant: 84 }.transition_allowed(&Bot);

    // Assert
    assert!(!result);
}

fn samples() -> Vec<Typ> {
    vec![
        Bot,
        Top,
        Int { constant: 1 },
        Int { constant: -7 },
        IntTop,
        IntBot,
        Typ::Bool { constant: true },
        Typ::Bool { constant: false },
        Typ::BoolTop,
        Typ::BoolBot,
        Typ::Tuple { typs: vec![Ctrl, IntBot] },
        Typ::Tuple { typs: vec![Ctrl, Int { constant: 3 }] },
        Typ::Tuple { typs: vec![] },
        TupleTop,
        TupleBot,
        Ctrl,
    ]
}

#[test]
fn should_meet_integers() {
    assert_eq!(Int { constant: 5 }.meet(&Int { constant: 5 }), Int { constant: 5 });
    assert_eq!(Int { constant: 5 }.meet(&Int { constant: 6 }), IntBot);
    assert_eq!(Int { constant: 5 }.meet(&IntTop), Int { constant: 5 });
    assert_eq!(Int { constant: 5 }.meet(&IntBot), IntBot);
    assert_eq!(Int { constant: 5 }.meet(&Top), Int { constant: 5 });
    assert_eq!(Int { constant: 5 }.meet(&Bot), Bot);
    assert_eq!(Int { constant: 5 }.meet(&Typ::Bool { constant: true }), Bot);
}

#[test]
fn should_meet_ctrl_only_with_top() {
    assert_eq!(Ctrl.meet(&Top), Ctrl);
    assert_eq!(Top.meet(&Ctrl), Ctrl);
    assert_eq!(Ctrl.meet(&Ctrl), Bot);
    assert_eq!(Ctrl.meet(&Int { constant: 0 }), Bot);
    assert_eq!(Ctrl.meet(&Bot), Bot);
}

#[test]
fn should_meet_tuples() {
    let a = Typ::Tuple { typs: vec![Ctrl, IntBot] };
    let b = Typ::Tuple { typs: vec![Ctrl, Int { constant: 3 }] };
    assert_eq!(a.meet(&a.clone()), a);
    assert_eq!(a.meet(&b), TupleBot);
    assert_eq!(a.meet(&TupleTop), a);
    assert_eq!(TupleTop.meet(&a), a);
    assert_eq!(a.meet(&TupleBot), TupleBot);
    assert_eq!(a.meet(&Top), a);
    assert_eq!(a.meet(&IntTop), Bot);
}

#[test]
fn should_swap_top_and_bottom_in_dual() {
    assert_eq!(Top.dual(), Bot);
    assert_eq!(Bot.dual(), Top);
    assert_eq!(IntTop.dual(), IntBot);
    assert_eq!(IntBot.dual(), IntTop);
    assert_eq!(Typ::BoolTop.dual(), Typ::BoolBot);
    assert_eq!(Typ::BoolBot.dual(), Typ::BoolTop);
    assert_eq!(TupleTop.dual(), TupleBot);
    assert_eq!(TupleBot.dual(), TupleTop);
    assert_eq!(Ctrl.dual(), Ctrl);
    assert_eq!(Int { constant: 9 }.dual(), Int { constant: 9 });
    assert_eq!(Typ::Bool { constant: true }.dual(), Typ::Bool { constant: true });
}

#[test]
fn should_join_two_integers_in_int_top() {
    assert_eq!(Int { constant: 1 }.join(&Int { constant: 2 }), IntTop);
    assert_eq!(Int { constant: 1 }.join(&Int { constant: 1 }), Int { constant: 1 });
    assert_eq!(IntBot.join(&Int { constant: 1 }), Int { constant: 1 });
}

#[test]
fn should_return_the_element_from_a_double_dual() {
    for x in samples() {
        assert_eq!(x.dual().dual(), x);
    }
}

#[test]
fn should_join_as_the_dual_of_the_meet_of_duals() {
    for a in samples() {
        for b in samples() {
            assert_eq!(a.join(&b), a.dual().meet(&b.dual()).dual());
        }
    }
}

#[test]
fn should_meet_and_join_commutatively() {
    for a in samples() {
        for b in samples() {
            assert_eq!(a.meet(&b), b.meet(&a));
            assert_eq!(a.join(&b), b.join(&a));
        }
    }
}

#[test]
fn should_meet_and_join_associatively() {
    for a in samples() {
        for b in samples() {
            for c in samples() {
                assert_eq!(a.meet(&b).meet(&c), a.meet(&b.meet(&c)));
                assert_eq!(a.join(&b).join(&c), a.join(&b.join(&c)));
            }
        }
    }
}

#[test]
fn should_allow_every_element_but_ctrl_to_stay() {
    for x in samples() {
        assert_eq!(x.transition_allowed(&x), !matches!(x, Ctrl));
    }
}

#[test]
fn should_tell_constants_and_simple_types() {
    assert!(Top.is_constant());
    assert!(Int { constant: 0 }.is_constant());
    assert!(Typ::Bool { constant: false }.is_constant());
    assert!(!Bot.is_constant());
    assert!(!IntTop.is_constant());
    assert!(!Ctrl.is_constant());
    assert!(Bot.is_simple());
    assert!(Top.is_simple());
    assert!(Ctrl.is_simple());
    assert!(!IntBot.is_simple());
    assert!(!Int { constant: 1 }.is_simple());
}

#[test]
fn should_compare_types_by_value() {
    assert_eq!(Typ::Tuple { typs: vec![Ctrl] }, Typ::Tuple { typs: vec![Ctrl] });
    assert_ne!(Typ::Tuple { typs: vec![Ctrl] }, Typ::Tuple { typs: vec![Ctrl, Ctrl] });
    assert_ne!(Typ::Tuple { typs: vec![Ctrl] }, Typ::Tuple { typs: vec![Top] });
    assert_ne!(Int { constant: 1 }, Int { constant: 2 });
    assert!(Int { constant: 1 }.same(&Int { constant: 1 }));
}
