use crate::errors::son_error::SoNError;
use crate::nodes::graph::{
    count, edge_added, edge_removed, lemma_count_push, live, out_mult,
};
use crate::services::collector::{collected, swept};
use crate::nodes::node::{Node, NodeKind};
use crate::services::grammar::{
    Outcome, addition, identifier, identifier_at, multiplication, sign, space_end, statement,
    unary,
};
use crate::services::lexer::{
    CharClass, digits_value, is_digit, run_end, slice, starts_at, word_at,
};
use crate::services::parser::{KEEP_ALIVE_NID, Parser, SCOPE_NID};
use crate::services::scope::{
    bonds_kept, bound_count, bound_slots, constant_node, find_name, lemma_lookup_below,
    lemma_lookup_bound, lookup, names, rebound, scope_stack, tidy,
};
use crate::services::typ_refiner::refine_spec;
use crate::typ::typ::TypV;
use vstd::prelude::*;

verus! {

/// The type of the node that `name` is bound to in the arena `g`, in the
/// innermost scope level that binds it.
pub open spec fn bound_typ(g: Seq<Option<Node>>, name: Seq<char>) -> Option<TypV> {
    match scope_stack(g) {
        Some(stack) => match lookup(stack, name, stack.len()) {
            Some(x) => Some(g[x as int]->0.typ@),
            None => None,
        },
        None => None,
    }
}

/// The types of the names in scope: each name that is bound, with the type
/// of the node it is bound to.
pub open spec fn types_in_scope(g: Seq<Option<Node>>) -> Map<Seq<char>, TypV> {
    Map::new(|name: Seq<char>| bound_typ(g, name) is Some, |name: Seq<char>| bound_typ(g, name)->0)
}

/// The type that an operator of kind `kind` has on operands of the types `a`
/// and `b`, where these are known and the operator folds them to a
/// compile-time value.  A unary operator reads `a` alone.
pub open spec fn folded(kind: NodeKind, a: Option<TypV>, b: Option<TypV>) -> Option<TypV> {
    match (a, b) {
        (Some(x), Some(y)) => {
            let t = refine_spec(kind, TypV::Bot, x, y);
            if t.is_constant() {
                Some(t)
            } else {
                None
            }
        },
        _ => None,
    }
}

/// The type of the primary expression at `p`, where it is known: a literal
/// has the type of its number, a name the type it has in scope, and an
/// expression in parentheses the type of that expression.
pub open spec fn primary_typ(
    s: Seq<char>,
    p: int,
    names: Seq<Set<Seq<char>>>,
    env: Map<Seq<char>, TypV>,
) -> Option<TypV>
    decreases s.len() - p, 0nat,
{
    let q = space_end(s, p);
    if 0 <= q < s.len() && is_digit(s[q]) {
        Some(
            TypV::Int {
                constant: digits_value(slice(s, q, run_end(s, q, CharClass::Digit))) as i64,
            },
        )
    } else if starts_at(s, q, seq!['(']) && q >= p {
        expression_typ(s, q + 1, names, env)
    } else if identifier_at(s, q) && env.contains_key(identifier(s, q)) {
        Some(env[identifier(s, q)])
    } else {
        None
    }
}

/// The type of the unary expression at `p`, where it is known.
pub open spec fn unary_typ(
    s: Seq<char>,
    p: int,
    names: Seq<Set<Seq<char>>>,
    env: Map<Seq<char>, TypV>,
) -> Option<TypV>
    decreases s.len() - p, 1nat,
{
    let q = space_end(s, p);
    if starts_at(s, q, seq!['-']) && q >= p {
        folded(NodeKind::Minus, unary_typ(s, q + 1, names, env), Some(TypV::Bot))
    } else {
        primary_typ(s, p, names, env)
    }
}

/// The type of the product or quotient at `p`, where it is known.
pub open spec fn multiplication_typ(
    s: Seq<char>,
    p: int,
    names: Seq<Set<Seq<char>>>,
    env: Map<Seq<char>, TypV>,
) -> Option<TypV>
    decreases s.len() - p, 2nat,
{
    match unary(s, p, names) {
        Outcome::Accept { end, names: after } => {
            let q = space_end(s, end);
            if starts_at(s, q, seq!['*']) && q >= p {
                folded(
                    NodeKind::Mul,
                    unary_typ(s, p, names, env),
                    multiplication_typ(s, q + 1, after, env),
                )
            } else if starts_at(s, q, seq!['/']) && q >= p {
                folded(
                    NodeKind::Div,
                    unary_typ(s, p, names, env),
                    multiplication_typ(s, q + 1, after, env),
                )
            } else {
                unary_typ(s, p, names, env)
            }
        },
        _ => None,
    }
}

/// The type of the sum or difference at `p`, where it is known.
pub open spec fn addition_typ(
    s: Seq<char>,
    p: int,
    names: Seq<Set<Seq<char>>>,
    env: Map<Seq<char>, TypV>,
) -> Option<TypV>
    decreases s.len() - p, 3nat,
{
    match multiplication(s, p, names) {
        Outcome::Accept { end, names: after } => {
            let q = space_end(s, end);
            if starts_at(s, q, seq!['+']) && q >= p {
                folded(
                    NodeKind::Add,
                    multiplication_typ(s, p, names, env),
                    addition_typ(s, q + 1, after, env),
                )
            } else if starts_at(s, q, seq!['-']) && q >= p {
                folded(
                    NodeKind::Sub,
                    multiplication_typ(s, p, names, env),
                    addition_typ(s, q + 1, after, env),
                )
            } else {
                multiplication_typ(s, p, names, env)
            }
        },
        _ => None,
    }
}

/// The type of the expression at `p`, where it is known: what the operators
/// fold the literals and the names in scope to.
pub open spec fn expression_typ(
    s: Seq<char>,
    p: int,
    names: Seq<Set<Seq<char>>>,
    env: Map<Seq<char>, TypV>,
) -> Option<TypV>
    decreases s.len() - p, 4nat,
{
    addition_typ(s, p, names, env)
}

/// Where the scope stack and the nodes that the scope node observes are
/// kept, the names in scope keep their types.
pub proof fn lemma_scope_kept_types(old: Seq<Option<Node>>, new: Seq<Option<Node>>)
    requires
        tidy(old),
        scope_stack(new) == scope_stack(old),
        bonds_kept(old, new),
    ensures
        types_in_scope(new) == types_in_scope(old),
{
    let stack = scope_stack(old)->0;
    assert forall|name: Seq<char>| bound_typ(new, name) == bound_typ(old, name) by {
        if lookup(stack, name, stack.len()) is Some {
            let x = lookup(stack, name, stack.len())->0;
            lemma_lookup_bound(stack, name, stack.len());
            assert(bound_count(stack, x) <= out_mult(old, x, SCOPE_NID));
            assert(out_mult(new, x, SCOPE_NID) == out_mult(old, x, SCOPE_NID));
        }
    }
    assert(types_in_scope(new) =~= types_in_scope(old));
}

/// Every sum, product and quotient that is read of the primary expression
/// at `p` folds to a compile-time value.
pub open spec fn primary_folds(
    s: Seq<char>,
    p: int,
    names: Seq<Set<Seq<char>>>,
    env: Map<Seq<char>, TypV>,
) -> bool
    decreases s.len() - p, 0nat,
{
    let q = space_end(s, p);
    if 0 <= q < s.len() && is_digit(s[q]) {
        true
    } else if starts_at(s, q, seq!['(']) && q >= p {
        expression_folds(s, q + 1, names, env)
    } else {
        true
    }
}

/// As `primary_folds`, for the unary expression at `p`.
pub open spec fn unary_folds(
    s: Seq<char>,
    p: int,
    names: Seq<Set<Seq<char>>>,
    env: Map<Seq<char>, TypV>,
) -> bool
    decreases s.len() - p, 1nat,
{
    let q = space_end(s, p);
    if starts_at(s, q, seq!['-']) && q >= p {
        unary_folds(s, q + 1, names, env)
    } else {
        primary_folds(s, p, names, env)
    }
}

/// As `primary_folds`, for the product or quotient at `p`: what is read of
/// its operands folds, and so does the product or quotient itself where
/// both operands are read.
pub open spec fn multiplication_folds(
    s: Seq<char>,
    p: int,
    names: Seq<Set<Seq<char>>>,
    env: Map<Seq<char>, TypV>,
) -> bool
    decreases s.len() - p, 2nat,
{
    unary_folds(s, p, names, env) && match unary(s, p, names) {
        Outcome::Accept { end, names: after } => {
            let q = space_end(s, end);
            if (starts_at(s, q, seq!['*']) || starts_at(s, q, seq!['/'])) && q >= p {
                multiplication_folds(s, q + 1, after, env) && (multiplication(s, q + 1, after)
                    is Accept ==> multiplication_typ(s, p, names, env) is Some)
            } else {
                true
            }
        },
        _ => true,
    }
}

/// As `primary_folds`, for the sum or difference at `p`: a difference may
/// stay as it is, a sum folds.
pub open spec fn addition_folds(
    s: Seq<char>,
    p: int,
    names: Seq<Set<Seq<char>>>,
    env: Map<Seq<char>, TypV>,
) -> bool
    decreases s.len() - p, 3nat,
{
    multiplication_folds(s, p, names, env) && match multiplication(s, p, names) {
        Outcome::Accept { end, names: after } => {
            let q = space_end(s, end);
            if starts_at(s, q, seq!['+']) && q >= p {
                addition_folds(s, q + 1, after, env) && (addition(s, q + 1, after) is Accept
                    ==> addition_typ(s, p, names, env) is Some)
            } else if starts_at(s, q, seq!['-']) && q >= p {
                addition_folds(s, q + 1, after, env)
            } else {
                true
            }
        },
        _ => true,
    }
}

/// As `primary_folds`, for the expression at `p`.
pub open spec fn expression_folds(
    s: Seq<char>,
    p: int,
    names: Seq<Set<Seq<char>>>,
    env: Map<Seq<char>, TypV>,
) -> bool
    decreases s.len() - p, 4nat,
{
    addition_folds(s, p, names, env)
}

/// As `primary_folds`, for the expression of the binding whose identifier
/// stands at `at`.
pub open spec fn binding_folds(
    s: Seq<char>,
    at: int,
    names: Seq<Set<Seq<char>>>,
    env: Map<Seq<char>, TypV>,
) -> bool {
    match sign(s, run_end(s, space_end(s, at), CharClass::IdLetter), seq!['='], names) {
        Outcome::Accept { end, names: after } => expression_folds(s, end, after, env),
        _ => true,
    }
}

/// Every sum, product and quotient that is read of the right operand at `p`
/// folds, and so does the node of kind `kind` that joins a left operand of
/// the type `left` with it, unless it is a difference, which may stay as it
/// is.  The right operand is a sum or difference if `additive` is set, and a
/// product or quotient if not.
pub open spec fn right_folds(
    s: Seq<char>,
    p: int,
    names: Seq<Set<Seq<char>>>,
    env: Map<Seq<char>, TypV>,
    kind: NodeKind,
    left: TypV,
    additive: bool,
) -> bool {
    if additive {
        addition_folds(s, p, names, env) && (addition(s, p, names) is Accept ==> kind is Sub
            || folded(kind, Some(left), addition_typ(s, p, names, env)) is Some)
    } else {
        multiplication_folds(s, p, names, env) && (multiplication(s, p, names) is Accept
            ==> kind is Sub || folded(kind, Some(left), multiplication_typ(s, p, names, env))
            is Some)
    }
}

/// The node in slot `r` is a return node, not in the slot of the keep-alive
/// node, with two inputs, the second of which, the value, is there and lists
/// it as an observer; where the type of the value is known as `t`, the value
/// carries it.
pub open spec fn yields(g: Seq<Option<Node>>, r: usize, t: Option<TypV>) -> bool {
    &&& live(g, r)
    &&& r != KEEP_ALIVE_NID
    &&& g[r as int]->0.node_kind is Return
    &&& g[r as int]->0.inputs@.len() == 2
    &&& live(g, g[r as int]->0.inputs@[1])
    &&& out_mult(g, g[r as int]->0.inputs@[1], r) > 0
    &&& t is Some ==> g[g[r as int]->0.inputs@[1] as int]->0.typ@ == t->0
}

/// The type of the value of the return statement at `p`, where it is known.
pub open spec fn return_typ(
    s: Seq<char>,
    p: int,
    names: Seq<Set<Seq<char>>>,
    env: Map<Seq<char>, TypV>,
) -> Option<TypV> {
    expression_typ(s, space_end(s, p) + "return"@.len(), names, env)
}

/// What the last statement that was parsed has built.
pub enum Last {
    /// A return node; `typ` is the type of its value, where it is known.
    Return { typ: Option<TypV> },
    /// No return node.
    Other,
}

/// What a statement does: the types that are known of the names in scope
/// after it, and what it has built.
pub struct Effect {
    pub env: Map<Seq<char>, TypV>,
    pub last: Last,
}

/// The node in slot `r` is what `last` says.
pub open spec fn shown(g: Seq<Option<Node>>, r: usize, last: Last) -> bool {
    match last {
        Last::Return { typ } => yields(g, r, typ),
        Last::Other => true,
    }
}

/// `a` says of a node no more than `b` does.
pub open spec fn at_most(a: Last, b: Last) -> bool {
    match a {
        Last::Other => true,
        Last::Return { typ: None } => b is Return,
        Last::Return { typ: Some(t) } => b == a,
    }
}

/// Every type that `a` gives to a name, `b` gives to it too.
pub open spec fn within(a: Map<Seq<char>, TypV>, b: Map<Seq<char>, TypV>) -> bool {
    forall|name: Seq<char>| #[trigger]
        a.contains_key(name) ==> b.contains_key(name) && b[name] == a[name]
}

/// The types `env` are right about the names in scope in the arena `g`.
pub open spec fn known(env: Map<Seq<char>, TypV>, g: Seq<Option<Node>>) -> bool {
    within(env, types_in_scope(g))
}

/// The types `env` after `name` was bound to a node of the type `t`, or to a
/// node whose type is not known.
pub open spec fn bound_env(
    env: Map<Seq<char>, TypV>,
    name: Seq<char>,
    t: Option<TypV>,
) -> Map<Seq<char>, TypV> {
    match t {
        Some(t) => env.insert(name, t),
        None => env.remove(name),
    }
}

/// The type of the expression in `identifier '=' expression ';'`, where the
/// identifier stands at `at`.
pub open spec fn binding_typ(
    s: Seq<char>,
    at: int,
    names: Seq<Set<Seq<char>>>,
    env: Map<Seq<char>, TypV>,
) -> Option<TypV> {
    match sign(s, run_end(s, space_end(s, at), CharClass::IdLetter), seq!['='], names) {
        Outcome::Accept { end, names: after } => expression_typ(s, end, after, env),
        _ => None,
    }
}

/// What the statement at `p` does, where `env` holds the types that are
/// known before it: a declaration and an assignment bind a name to the type
/// of their expression, a return statement builds a return node, and a block
/// builds what its last statement builds and leaves the names as they were.
pub open spec fn statement_effect(
    s: Seq<char>,
    p: int,
    names: Seq<Set<Seq<char>>>,
    env: Map<Seq<char>, TypV>,
) -> Effect
    decreases s.len() - p, 2nat, 0nat,
{
    let q = space_end(s, p);
    if starts_at(s, q, "#showGraph;"@) {
        Effect { env, last: Last::Other }
    } else if word_at(s, q, "return"@) {
        Effect { env, last: Last::Return { typ: return_typ(s, p, names, env) } }
    } else if word_at(s, q, "int"@) {
        let at = space_end(s, q + "int"@.len());
        Effect {
            env: bound_env(env, identifier(s, at), binding_typ(s, at, names, env)),
            last: Last::Other,
        }
    } else if starts_at(s, q, seq!['{']) && q >= p {
        Effect { env, last: block_last(s, q, names, env) }
    } else {
        Effect {
            env: bound_env(env, identifier(s, q), binding_typ(s, q, names, env)),
            last: Last::Other,
        }
    }
}

/// What the last of the statements from `p` on builds; `any` tells whether
/// a statement was read already, and `last` what the last one has built.
pub open spec fn statements_last(
    s: Seq<char>,
    p: int,
    names: Seq<Set<Seq<char>>>,
    env: Map<Seq<char>, TypV>,
    any: bool,
    last: Last,
) -> Last
    decreases s.len() - p, 3nat, 0nat,
{
    if any && (p >= s.len() || starts_at(s, space_end(s, p), seq!['}'])) {
        last
    } else {
        match statement(s, p, names) {
            Outcome::Accept { end, names: after } => {
                let effect = statement_effect(s, p, names, env);
                if p < end <= s.len() {
                    statements_last(s, end, after, effect.env, true, effect.last)
                } else {
                    effect.last
                }
            },
            Outcome::Directive { end } => if p < end <= s.len() {
                statements_last(s, end, names, env, any, last)
            } else {
                last
            },
            _ => last,
        }
    }
}

/// What the block at `p` builds: what the last of its statements builds.
pub open spec fn block_last(
    s: Seq<char>,
    p: int,
    names: Seq<Set<Seq<char>>>,
    env: Map<Seq<char>, TypV>,
) -> Last
    decreases s.len() - p, 1nat, 0nat,
{
    let q = space_end(s, p);
    if !starts_at(s, q, seq!['{']) || q < p {
        Last::Other
    } else {
        statements_last(s, q + 1, names.push(Set::empty()), env, false, Last::Other)
    }
}

/// Every sum, product and quotient that is read of the statement at `p`
/// folds to a compile-time value, where `env` holds the types that are
/// known before it.
pub open spec fn statement_folds(
    s: Seq<char>,
    p: int,
    names: Seq<Set<Seq<char>>>,
    env: Map<Seq<char>, TypV>,
) -> bool
    decreases s.len() - p, 2nat, 0nat,
{
    let q = space_end(s, p);
    if starts_at(s, q, "#showGraph;"@) {
        true
    } else if word_at(s, q, "return"@) {
        expression_folds(s, q + "return"@.len(), names, env)
    } else if word_at(s, q, "int"@) {
        binding_folds(s, space_end(s, q + "int"@.len()), names, env)
    } else if starts_at(s, q, seq!['{']) && q >= p {
        block_folds(s, q, names, env)
    } else {
        binding_folds(s, q, names, env)
    }
}

/// As `statement_folds`, for the statements from `p` on.
pub open spec fn statements_fold(
    s: Seq<char>,
    p: int,
    names: Seq<Set<Seq<char>>>,
    env: Map<Seq<char>, TypV>,
    any: bool,
) -> bool
    decreases s.len() - p, 3nat, 0nat,
{
    if any && (p >= s.len() || starts_at(s, space_end(s, p), seq!['}'])) {
        true
    } else {
        statement_folds(s, p, names, env) && match statement(s, p, names) {
            Outcome::Accept { end, names: after } => p < end <= s.len() ==> statements_fold(
                s,
                end,
                after,
                statement_effect(s, p, names, env).env,
                true,
            ),
            Outcome::Directive { end } => p < end <= s.len() ==> statements_fold(
                s,
                end,
                names,
                env,
                any,
            ),
            _ => true,
        }
    }
}

/// As `statement_folds`, for the block at `p`.
pub open spec fn block_folds(
    s: Seq<char>,
    p: int,
    names: Seq<Set<Seq<char>>>,
    env: Map<Seq<char>, TypV>,
) -> bool
    decreases s.len() - p, 1nat, 0nat,
{
    let q = space_end(s, p);
    if !starts_at(s, q, seq!['{']) || q < p {
        true
    } else {
        statements_fold(s, q + 1, names.push(Set::empty()), env, false)
    }
}

/// As `statement_folds`, for the program at `p`, with a start node of the
/// type `start`.
pub open spec fn program_folds(
    s: Seq<char>,
    p: int,
    names: Seq<Set<Seq<char>>>,
    env: Map<Seq<char>, TypV>,
    start: TypV,
) -> bool {
    block_folds(s, p, names.push(set!["$ctrl"@, "arg"@]), start_env(env, start))
}

/// What folds where less is known of the names folds where more is known.
pub proof fn lemma_primary_folds_grow(
    s: Seq<char>,
    p: int,
    names: Seq<Set<Seq<char>>>,
    a: Map<Seq<char>, TypV>,
    b: Map<Seq<char>, TypV>,
)
    requires
        within(a, b),
        primary_folds(s, p, names, a),
    ensures
        primary_folds(s, p, names, b),
    decreases s.len() - p, 0nat,
{
    let q = space_end(s, p);
    if 0 <= q < s.len() && is_digit(s[q]) {
    } else if starts_at(s, q, seq!['(']) && q >= p {
        lemma_addition_folds_grow(s, q + 1, names, a, b);
    }
}

/// As `lemma_primary_folds_grow`, for a unary expression.
pub proof fn lemma_unary_folds_grow(
    s: Seq<char>,
    p: int,
    names: Seq<Set<Seq<char>>>,
    a: Map<Seq<char>, TypV>,
    b: Map<Seq<char>, TypV>,
)
    requires
        within(a, b),
        unary_folds(s, p, names, a),
    ensures
        unary_folds(s, p, names, b),
    decreases s.len() - p, 1nat,
{
    let q = space_end(s, p);
    if starts_at(s, q, seq!['-']) && q >= p {
        lemma_unary_folds_grow(s, q + 1, names, a, b);
    } else {
        lemma_primary_folds_grow(s, p, names, a, b);
    }
}

/// As `lemma_primary_folds_grow`, for a product or quotient.
pub proof fn lemma_multiplication_folds_grow(
    s: Seq<char>,
    p: int,
    names: Seq<Set<Seq<char>>>,
    a: Map<Seq<char>, TypV>,
    b: Map<Seq<char>, TypV>,
)
    requires
        within(a, b),
        multiplication_folds(s, p, names, a),
    ensures
        multiplication_folds(s, p, names, b),
    decreases s.len() - p, 2nat,
{
    lemma_unary_folds_grow(s, p, names, a, b);
    lemma_multiplication_grows(s, p, names, a, b);
    match unary(s, p, names) {
        Outcome::Accept { end, names: after } => {
            let q = space_end(s, end);
            if (starts_at(s, q, seq!['*']) || starts_at(s, q, seq!['/'])) && q >= p {
                lemma_multiplication_folds_grow(s, q + 1, after, a, b);
            }
        },
        _ => {},
    }
}

/// As `lemma_primary_folds_grow`, for a sum or difference.
pub proof fn lemma_addition_folds_grow(
    s: Seq<char>,
    p: int,
    names: Seq<Set<Seq<char>>>,
    a: Map<Seq<char>, TypV>,
    b: Map<Seq<char>, TypV>,
)
    requires
        within(a, b),
        addition_folds(s, p, names, a),
    ensures
        addition_folds(s, p, names, b),
        expression_folds(s, p, names, b),
    decreases s.len() - p, 3nat,
{
    lemma_multiplication_folds_grow(s, p, names, a, b);
    lemma_addition_grows(s, p, names, a, b);
    match multiplication(s, p, names) {
        Outcome::Accept { end, names: after } => {
            let q = space_end(s, end);
            if (starts_at(s, q, seq!['+']) || starts_at(s, q, seq!['-'])) && q >= p {
                lemma_addition_folds_grow(s, q + 1, after, a, b);
            }
        },
        _ => {},
    }
}

/// As `lemma_primary_folds_grow`, for the expression of a binding.
pub proof fn lemma_binding_folds_grow(
    s: Seq<char>,
    at: int,
    names: Seq<Set<Seq<char>>>,
    a: Map<Seq<char>, TypV>,
    b: Map<Seq<char>, TypV>,
)
    requires
        within(a, b),
        binding_folds(s, at, names, a),
    ensures
        binding_folds(s, at, names, b),
{
    match sign(s, run_end(s, space_end(s, at), CharClass::IdLetter), seq!['='], names) {
        Outcome::Accept { end, names: after } => {
            lemma_addition_folds_grow(s, end, after, a, b);
        },
        _ => {},
    }
}

/// As `lemma_primary_folds_grow`, for a statement.
pub proof fn lemma_statement_folds_grow(
    s: Seq<char>,
    p: int,
    names: Seq<Set<Seq<char>>>,
    a: Map<Seq<char>, TypV>,
    b: Map<Seq<char>, TypV>,
)
    requires
        within(a, b),
        statement_folds(s, p, names, a),
    ensures
        statement_folds(s, p, names, b),
    decreases s.len() - p, 2nat, 0nat,
{
    let q = space_end(s, p);
    if starts_at(s, q, "#showGraph;"@) {
    } else if word_at(s, q, "return"@) {
        lemma_addition_folds_grow(s, q + "return"@.len(), names, a, b);
    } else if word_at(s, q, "int"@) {
        lemma_binding_folds_grow(s, space_end(s, q + "int"@.len()), names, a, b);
    } else if starts_at(s, q, seq!['{']) && q >= p {
        lemma_block_folds_grow(s, q, names, a, b);
    } else {
        lemma_binding_folds_grow(s, q, names, a, b);
    }
}

/// As `lemma_primary_folds_grow`, for the statements of a block.
pub proof fn lemma_statements_fold_grow(
    s: Seq<char>,
    p: int,
    names: Seq<Set<Seq<char>>>,
    a: Map<Seq<char>, TypV>,
    b: Map<Seq<char>, TypV>,
    any: bool,
)
    requires
        within(a, b),
        statements_fold(s, p, names, a, any),
    ensures
        statements_fold(s, p, names, b, any),
    decreases s.len() - p, 3nat, 0nat,
{
    if any && (p >= s.len() || starts_at(s, space_end(s, p), seq!['}'])) {
    } else {
        lemma_statement_folds_grow(s, p, names, a, b);
        match statement(s, p, names) {
            Outcome::Accept { end, names: after } => {
                lemma_statement_grows(s, p, names, a, b);
                if p < end <= s.len() {
                    lemma_statements_fold_grow(
                        s,
                        end,
                        after,
                        statement_effect(s, p, names, a).env,
                        statement_effect(s, p, names, b).env,
                        true,
                    );
                }
            },
            Outcome::Directive { end } => {
                if p < end <= s.len() {
                    lemma_statements_fold_grow(s, end, names, a, b, any);
                }
            },
            _ => {},
        }
    }
}

/// As `lemma_primary_folds_grow`, for a block.
pub proof fn lemma_block_folds_grow(
    s: Seq<char>,
    p: int,
    names: Seq<Set<Seq<char>>>,
    a: Map<Seq<char>, TypV>,
    b: Map<Seq<char>, TypV>,
)
    requires
        within(a, b),
        block_folds(s, p, names, a),
    ensures
        block_folds(s, p, names, b),
    decreases s.len() - p, 1nat, 0nat,
{
    let q = space_end(s, p);
    if !starts_at(s, q, seq!['{']) || q < p {
    } else {
        lemma_statements_fold_grow(s, q + 1, names.push(Set::empty()), a, b, false);
    }
}

/// A type of a primary expression that is known stays what it is where more
/// is known of the names.
pub proof fn lemma_primary_grows(
    s: Seq<char>,
    p: int,
    names: Seq<Set<Seq<char>>>,
    a: Map<Seq<char>, TypV>,
    b: Map<Seq<char>, TypV>,
)
    requires
        within(a, b),
    ensures
        primary_typ(s, p, names, a) is Some ==> primary_typ(s, p, names, b) == primary_typ(
            s,
            p,
            names,
            a,
        ),
    decreases s.len() - p, 0nat,
{
    let q = space_end(s, p);
    if 0 <= q < s.len() && is_digit(s[q]) {
    } else if starts_at(s, q, seq!['(']) && q >= p {
        lemma_addition_grows(s, q + 1, names, a, b);
    } else if identifier_at(s, q) && a.contains_key(identifier(s, q)) {
        assert(b.contains_key(identifier(s, q)));
    }
}

/// As `lemma_primary_grows`, for a unary expression.
pub proof fn lemma_unary_grows(
    s: Seq<char>,
    p: int,
    names: Seq<Set<Seq<char>>>,
    a: Map<Seq<char>, TypV>,
    b: Map<Seq<char>, TypV>,
)
    requires
        within(a, b),
    ensures
        unary_typ(s, p, names, a) is Some ==> unary_typ(s, p, names, b) == unary_typ(
            s,
            p,
            names,
            a,
        ),
    decreases s.len() - p, 1nat,
{
    let q = space_end(s, p);
    if starts_at(s, q, seq!['-']) && q >= p {
        lemma_unary_grows(s, q + 1, names, a, b);
    } else {
        lemma_primary_grows(s, p, names, a, b);
    }
}

/// As `lemma_primary_grows`, for a product or quotient.
pub proof fn lemma_multiplication_grows(
    s: Seq<char>,
    p: int,
    names: Seq<Set<Seq<char>>>,
    a: Map<Seq<char>, TypV>,
    b: Map<Seq<char>, TypV>,
)
    requires
        within(a, b),
    ensures
        multiplication_typ(s, p, names, a) is Some ==> multiplication_typ(s, p, names, b)
            == multiplication_typ(s, p, names, a),
    decreases s.len() - p, 2nat,
{
    lemma_unary_grows(s, p, names, a, b);
    match unary(s, p, names) {
        Outcome::Accept { end, names: after } => {
            let q = space_end(s, end);
            if (starts_at(s, q, seq!['*']) || starts_at(s, q, seq!['/'])) && q >= p {
                lemma_multiplication_grows(s, q + 1, after, a, b);
            }
        },
        _ => {},
    }
}

/// As `lemma_primary_grows`, for a sum or difference.
pub proof fn lemma_addition_grows(
    s: Seq<char>,
    p: int,
    names: Seq<Set<Seq<char>>>,
    a: Map<Seq<char>, TypV>,
    b: Map<Seq<char>, TypV>,
)
    requires
        within(a, b),
    ensures
        addition_typ(s, p, names, a) is Some ==> addition_typ(s, p, names, b) == addition_typ(
            s,
            p,
            names,
            a,
        ),
        expression_typ(s, p, names, a) is Some ==> expression_typ(s, p, names, b)
            == expression_typ(s, p, names, a),
    decreases s.len() - p, 3nat,
{
    lemma_multiplication_grows(s, p, names, a, b);
    match multiplication(s, p, names) {
        Outcome::Accept { end, names: after } => {
            let q = space_end(s, end);
            if (starts_at(s, q, seq!['+']) || starts_at(s, q, seq!['-'])) && q >= p {
                lemma_addition_grows(s, q + 1, after, a, b);
            }
        },
        _ => {},
    }
}

/// Binding a name keeps what is known within what is the case.
pub proof fn lemma_bound_within(
    a: Map<Seq<char>, TypV>,
    b: Map<Seq<char>, TypV>,
    name: Seq<char>,
    ta: Option<TypV>,
    tb: Option<TypV>,
)
    requires
        within(a, b),
        ta is Some ==> tb == ta,
    ensures
        within(bound_env(a, name, ta), bound_env(b, name, tb)),
{
    assert forall|n: Seq<char>| #[trigger] bound_env(a, name, ta).contains_key(n) implies bound_env(
        b,
        name,
        tb,
    ).contains_key(n) && bound_env(b, name, tb)[n] == bound_env(a, name, ta)[n] by {
        if n != name {
            assert(a.contains_key(n));
        }
    }
}

/// A statement that knows less of the names says no more of what it builds,
/// and knows no more afterwards.
pub proof fn lemma_statement_grows(
    s: Seq<char>,
    p: int,
    names: Seq<Set<Seq<char>>>,
    a: Map<Seq<char>, TypV>,
    b: Map<Seq<char>, TypV>,
)
    requires
        within(a, b),
    ensures
        within(statement_effect(s, p, names, a).env, statement_effect(s, p, names, b).env),
        at_most(statement_effect(s, p, names, a).last, statement_effect(s, p, names, b).last),
    decreases s.len() - p, 2nat, 0nat,
{
    let q = space_end(s, p);
    if starts_at(s, q, "#showGraph;"@) {
    } else if word_at(s, q, "return"@) {
        lemma_addition_grows(s, space_end(s, p) + "return"@.len(), names, a, b);
    } else if word_at(s, q, "int"@) {
        let at = space_end(s, q + "int"@.len());
        lemma_binding_grows(s, at, names, a, b);
        lemma_bound_within(
            a,
            b,
            identifier(s, at),
            binding_typ(s, at, names, a),
            binding_typ(s, at, names, b),
        );
    } else if starts_at(s, q, seq!['{']) && q >= p {
        lemma_block_grows(s, q, names, a, b);
    } else {
        lemma_binding_grows(s, q, names, a, b);
        lemma_bound_within(
            a,
            b,
            identifier(s, q),
            binding_typ(s, q, names, a),
            binding_typ(s, q, names, b),
        );
    }
}

/// As `lemma_primary_grows`, for the expression of a binding.
pub proof fn lemma_binding_grows(
    s: Seq<char>,
    at: int,
    names: Seq<Set<Seq<char>>>,
    a: Map<Seq<char>, TypV>,
    b: Map<Seq<char>, TypV>,
)
    requires
        within(a, b),
    ensures
        binding_typ(s, at, names, a) is Some ==> binding_typ(s, at, names, b) == binding_typ(
            s,
            at,
            names,
            a,
        ),
{
    match sign(s, run_end(s, space_end(s, at), CharClass::IdLetter), seq!['='], names) {
        Outcome::Accept { end, names: after } => {
            lemma_addition_grows(s, end, after, a, b);
        },
        _ => {},
    }
}

/// As `lemma_statement_grows`, for the statements of a block.
pub proof fn lemma_statements_grow(
    s: Seq<char>,
    p: int,
    names: Seq<Set<Seq<char>>>,
    a: Map<Seq<char>, TypV>,
    b: Map<Seq<char>, TypV>,
    any: bool,
    la: Last,
    lb: Last,
)
    requires
        within(a, b),
        at_most(la, lb),
    ensures
        at_most(
            statements_last(s, p, names, a, any, la),
            statements_last(s, p, names, b, any, lb),
        ),
    decreases s.len() - p, 3nat, 0nat,
{
    if any && (p >= s.len() || starts_at(s, space_end(s, p), seq!['}'])) {
    } else {
        match statement(s, p, names) {
            Outcome::Accept { end, names: after } => {
                lemma_statement_grows(s, p, names, a, b);
                if p < end <= s.len() {
                    lemma_statements_grow(
                        s,
                        end,
                        after,
                        statement_effect(s, p, names, a).env,
                        statement_effect(s, p, names, b).env,
                        true,
                        statement_effect(s, p, names, a).last,
                        statement_effect(s, p, names, b).last,
                    );
                }
            },
            Outcome::Directive { end } => {
                if p < end <= s.len() {
                    lemma_statements_grow(s, end, names, a, b, any, la, lb);
                }
            },
            _ => {},
        }
    }
}

/// As `lemma_statement_grows`, for a block.
pub proof fn lemma_block_grows(
    s: Seq<char>,
    p: int,
    names: Seq<Set<Seq<char>>>,
    a: Map<Seq<char>, TypV>,
    b: Map<Seq<char>, TypV>,
)
    requires
        within(a, b),
    ensures
        at_most(block_last(s, p, names, a), block_last(s, p, names, b)),
    decreases s.len() - p, 1nat, 0nat,
{
    let q = space_end(s, p);
    if !starts_at(s, q, seq!['{']) || q < p {
    } else {
        lemma_statements_grow(
            s,
            q + 1,
            names.push(Set::empty()),
            a,
            b,
            false,
            Last::Other,
            Last::Other,
        );
    }
}

/// What is shown of a node is shown where less is said.
pub proof fn lemma_shown_less(g: Seq<Option<Node>>, r: usize, a: Last, b: Last)
    requires
        at_most(a, b),
        shown(g, r, b),
    ensures
        shown(g, r, a),
{
}

/// A return node and its value outlive a rebinding of the arena.
pub proof fn lemma_shown_rebound(
    old: Seq<Option<Node>>,
    new: Seq<Option<Node>>,
    r: usize,
    last: Last,
)
    requires
        shown(old, r, last),
        rebound(old, new),
        scope_stack(old) is Some,
    ensures
        shown(new, r, last),
{
    if last is Return {
        let v = old[r as int]->0.inputs@[1];
        assert(r != SCOPE_NID);
        let cell = new[r as int];
        let value = new[v as int];
        assert(out_mult(new, v, r) == out_mult(old, v, r));
    }
}

/// The names that the first scope levels bind, up to `n` of them, are bound
/// in `new` to the nodes that they were bound to in `old`, and these have the
/// types they had.
pub open spec fn outer_kept(old: Seq<Option<Node>>, new: Seq<Option<Node>>, n: nat) -> bool {
    &&& scope_stack(old) is Some
    &&& scope_stack(new) is Some
    &&& n <= scope_stack(old)->0.len()
    &&& n <= scope_stack(new)->0.len()
    &&& forall|name: Seq<char>, m: nat|
        #![trigger lookup(scope_stack(new)->0, name, m)]
        m <= n ==> lookup(scope_stack(new)->0, name, m) == lookup(scope_stack(old)->0, name, m)
            && (lookup(scope_stack(old)->0, name, m) is Some ==> new[lookup(
            scope_stack(old)->0,
            name,
            m,
        )->0 as int]->0.typ@ == old[lookup(scope_stack(old)->0, name, m)->0 as int]->0.typ@)
}

/// Where the scope stack and the nodes that the scope node observes are
/// kept, the outer levels are kept.
pub proof fn lemma_outer_scope_kept(old: Seq<Option<Node>>, new: Seq<Option<Node>>, n: nat)
    requires
        tidy(old),
        scope_stack(new) == scope_stack(old),
        bonds_kept(old, new),
        n <= scope_stack(old)->0.len(),
    ensures
        outer_kept(old, new, n),
{
    let stack = scope_stack(old)->0;
    assert forall|name: Seq<char>, m: nat| m <= n && lookup(stack, name, m) is Some implies new[lookup(
        stack,
        name,
        m,
    )->0 as int]->0.typ@ == old[lookup(stack, name, m)->0 as int]->0.typ@ by {
        let x = lookup(stack, name, m)->0;
        lemma_lookup_bound(stack, name, m);
        assert(bound_count(stack, x) <= out_mult(old, x, SCOPE_NID));
        assert(out_mult(new, x, SCOPE_NID) == out_mult(old, x, SCOPE_NID));
    }
}

/// Where the arena is rebound and the first `n` scope levels are the same,
/// the outer levels are kept.
pub proof fn lemma_outer_rebound(old: Seq<Option<Node>>, new: Seq<Option<Node>>, n: nat)
    requires
        tidy(old),
        rebound(old, new),
        scope_stack(new) is Some,
        n <= scope_stack(old)->0.len(),
        n <= scope_stack(new)->0.len(),
        forall|l: int| 0 <= l < n ==> scope_stack(new)->0[l] == scope_stack(old)->0[l],
    ensures
        outer_kept(old, new, n),
{
    let stack = scope_stack(old)->0;
    let after = scope_stack(new)->0;
    assert forall|name: Seq<char>, m: nat|
        #![trigger lookup(after, name, m)]
        m <= n implies lookup(after, name, m) == lookup(stack, name, m) && (lookup(
            stack,
            name,
            m,
        ) is Some ==> new[lookup(stack, name, m)->0 as int]->0.typ@ == old[lookup(
            stack,
            name,
            m,
        )->0 as int]->0.typ@) by {
        lemma_lookup_below(after, stack, name, m);
        if lookup(stack, name, m) is Some {
            let x = lookup(stack, name, m)->0;
            lemma_lookup_bound(stack, name, m);
            assert(bound_count(stack, x) <= out_mult(old, x, SCOPE_NID));
            assert(live(old, x));
            let cell = new[x as int];
        }
    }
}

/// Outer levels that are kept twice are kept.
pub proof fn lemma_outer_twice(
    a: Seq<Option<Node>>,
    b: Seq<Option<Node>>,
    c: Seq<Option<Node>>,
    n: nat,
)
    requires
        outer_kept(a, b, n),
        outer_kept(b, c, n),
    ensures
        outer_kept(a, c, n),
{
    assert forall|name: Seq<char>, m: nat|
        #![trigger lookup(scope_stack(c)->0, name, m)]
        m <= n implies lookup(scope_stack(c)->0, name, m) == lookup(scope_stack(a)->0, name, m)
            && (lookup(scope_stack(a)->0, name, m) is Some ==> c[lookup(
            scope_stack(a)->0,
            name,
            m,
        )->0 as int]->0.typ@ == a[lookup(scope_stack(a)->0, name, m)->0 as int]->0.typ@) by {
        let x = lookup(scope_stack(b)->0, name, m);
    }
}

/// An arena keeps its own outer levels.
pub proof fn lemma_outer_same(g: Seq<Option<Node>>, n: nat)
    requires
        scope_stack(g) is Some,
        n <= scope_stack(g)->0.len(),
    ensures
        outer_kept(g, g, n),
{
}

/// Outer levels that are kept are kept where fewer of them are asked for.
pub proof fn lemma_outer_fewer(old: Seq<Option<Node>>, new: Seq<Option<Node>>, n: nat, m: nat)
    requires
        outer_kept(old, new, n),
        m <= n,
    ensures
        outer_kept(old, new, m),
{
}

/// Where all scope levels are kept, the names in scope keep their types.
pub proof fn lemma_outer_types(old: Seq<Option<Node>>, new: Seq<Option<Node>>)
    requires
        outer_kept(old, new, scope_stack(old)->0.len()),
        scope_stack(new)->0.len() == scope_stack(old)->0.len(),
    ensures
        types_in_scope(new) == types_in_scope(old),
{
    let n = scope_stack(old)->0.len();
    assert forall|name: Seq<char>| bound_typ(new, name) == bound_typ(old, name) by {
        let x = lookup(scope_stack(new)->0, name, n);
    }
    assert(types_in_scope(new) =~= types_in_scope(old));
}

/// A scope level that is opened leaves the names in scope with their types.
pub proof fn lemma_pushed_types(old: Seq<Option<Node>>, new: Seq<Option<Node>>)
    requires
        tidy(old),
        rebound(old, new),
        scope_stack(new) == Some(scope_stack(old)->0.push(Seq::empty())),
    ensures
        types_in_scope(new) == types_in_scope(old),
        outer_kept(old, new, scope_stack(old)->0.len()),
{
    let stack = scope_stack(old)->0;
    let after = scope_stack(new)->0;
    lemma_outer_rebound(old, new, stack.len());
    assert forall|name: Seq<char>| bound_typ(new, name) == bound_typ(old, name) by {
        let x = lookup(after, name, stack.len());
        assert(find_name(after.last(), name, 0) == -1);
    }
    assert(types_in_scope(new) =~= types_in_scope(old));
}

/// After `name` was bound to the node `nid` in the innermost scope level,
/// which did not bind it, the name has the type of that node, and every other
/// name the type it had.
pub proof fn lemma_defined_types(
    old: Seq<Option<Node>>,
    new: Seq<Option<Node>>,
    name: Seq<char>,
    nid: usize,
    at: int,
)
    requires
        tidy(old),
        rebound(old, new),
        scope_stack(old)->0.len() > 0,
        0 <= at <= scope_stack(old)->0.last().len(),
        find_name(scope_stack(old)->0.last(), name, 0) == -1,
        scope_stack(new) == Some(
            scope_stack(old)->0.update(
                scope_stack(old)->0.len() - 1,
                scope_stack(old)->0.last().insert(at, (name, nid)),
            ),
        ),
        live(old, nid),
    ensures
        types_in_scope(new) == types_in_scope(old).insert(name, old[nid as int]->0.typ@),
        new[nid as int]->0.typ@ == old[nid as int]->0.typ@,
{
    let stack = scope_stack(old)->0;
    let top = stack.len() - 1;
    let level = stack[top];
    let after = stack.update(top, level.insert(at, (name, nid)));
    let want = types_in_scope(old).insert(name, old[nid as int]->0.typ@);
    let cell = new[nid as int];
    assert forall|other: Seq<char>|
        #![trigger types_in_scope(new).dom().contains(other)]
        #![trigger want.dom().contains(other)]
        #![trigger types_in_scope(new)[other]]
        #![trigger want[other]]
        types_in_scope(new).dom().contains(other) == want.dom().contains(other) && (
        want.dom().contains(other) ==> types_in_scope(new)[other] == want[other]) by {
        if other == name {
            crate::services::scope::lemma_find_inserted(level, at, name, nid, 0);
        } else {
            crate::services::scope::lemma_find_other(
                level,
                level.insert(at, (name, nid)),
                at,
                name,
                other,
            );
            lemma_lookup_below(after, stack, other, top as nat);
            if lookup(stack, other, stack.len()) is Some {
                let x = lookup(stack, other, stack.len())->0;
                lemma_lookup_bound(stack, other, stack.len());
                assert(bound_count(stack, x) <= out_mult(old, x, SCOPE_NID));
                assert(live(old, x));
                let bound = new[x as int];
            }
        }
    }
    assert(types_in_scope(new) =~= want);
}

/// After the binding at `at` was taken out of the innermost scope level,
/// every name but its own has the type it had.
pub proof fn lemma_undefined_types(
    old: Seq<Option<Node>>,
    new: Seq<Option<Node>>,
    at: int,
    other: Seq<char>,
)
    requires
        tidy(old),
        rebound(old, new),
        scope_stack(old)->0.len() > 0,
        0 <= at < scope_stack(old)->0.last().len(),
        scope_stack(new) == Some(
            scope_stack(old)->0.update(
                scope_stack(old)->0.len() - 1,
                scope_stack(old)->0.last().remove(at),
            ),
        ),
        other != scope_stack(old)->0.last()[at].0,
    ensures
        bound_typ(new, other) == bound_typ(old, other),
{
    let stack = scope_stack(old)->0;
    let top = stack.len() - 1;
    let level = stack[top];
    let after = stack.update(top, level.remove(at));
    crate::services::scope::lemma_find_other(level, level.remove(at), at, level[at].0, other);
    lemma_lookup_below(after, stack, other, top as nat);
    if lookup(stack, other, stack.len()) is Some {
        let x = lookup(stack, other, stack.len())->0;
        lemma_lookup_bound(stack, other, stack.len());
        assert(bound_count(stack, x) <= out_mult(old, x, SCOPE_NID));
        assert(live(old, x));
        let bound = new[x as int];
    }
}

/// After an expression was parsed from `old` to `parsed` and its node `nid`
/// was bound to `name` in the innermost scope level, which did not bind it:
/// what was known of the names, with the type `t` for `name`, is right, and
/// the outer levels are kept.
pub proof fn lemma_declared_known(
    old: Seq<Option<Node>>,
    parsed: Seq<Option<Node>>,
    new: Seq<Option<Node>>,
    name: Seq<char>,
    nid: usize,
    at: int,
    t: Option<TypV>,
)
    requires
        tidy(old),
        tidy(parsed),
        scope_stack(parsed) == scope_stack(old),
        bonds_kept(old, parsed),
        rebound(parsed, new),
        scope_stack(old)->0.len() > 0,
        0 <= at <= scope_stack(old)->0.last().len(),
        find_name(scope_stack(old)->0.last(), name, 0) == -1,
        scope_stack(new) == Some(
            scope_stack(old)->0.update(
                scope_stack(old)->0.len() - 1,
                scope_stack(old)->0.last().insert(at, (name, nid)),
            ),
        ),
        live(parsed, nid),
        t is Some ==> parsed[nid as int]->0.typ@ == t->0,
    ensures
        known(bound_env(types_in_scope(old), name, t), new),
        outer_kept(old, new, (scope_stack(old)->0.len() - 1) as nat),
{
    let top = (scope_stack(old)->0.len() - 1) as nat;
    lemma_scope_kept_types(old, parsed);
    lemma_defined_types(parsed, new, name, nid, at);
    lemma_outer_scope_kept(old, parsed, top);
    lemma_outer_rebound(parsed, new, top);
    lemma_outer_twice(old, parsed, new, top);
    let env = bound_env(types_in_scope(old), name, t);
    assert forall|n: Seq<char>| #[trigger] env.contains_key(n) implies types_in_scope(
        new,
    ).contains_key(n) && types_in_scope(new)[n] == env[n] by {}
}

/// After an expression was parsed from `old` to `parsed`, the binding of
/// `name` at `index` of the innermost scope level was taken out, which led
/// to `unbound`, and `name` was bound there to the node `nid` of the
/// expression: what was known of the names, with the type `t` for `name`, is
/// right, and the outer levels are kept.
pub proof fn lemma_assigned_known(
    old: Seq<Option<Node>>,
    parsed: Seq<Option<Node>>,
    unbound: Seq<Option<Node>>,
    new: Seq<Option<Node>>,
    name: Seq<char>,
    nid: usize,
    index: int,
    at: int,
    t: Option<TypV>,
)
    requires
        tidy(old),
        tidy(parsed),
        tidy(unbound),
        scope_stack(parsed) == scope_stack(old),
        bonds_kept(old, parsed),
        rebound(parsed, unbound),
        rebound(unbound, new),
        scope_stack(old)->0.len() > 0,
        0 <= index < scope_stack(old)->0.last().len(),
        scope_stack(old)->0.last()[index].0 == name,
        scope_stack(unbound) == Some(
            scope_stack(old)->0.update(
                scope_stack(old)->0.len() - 1,
                scope_stack(old)->0.last().remove(index),
            ),
        ),
        0 <= at <= scope_stack(unbound)->0.last().len(),
        find_name(scope_stack(unbound)->0.last(), name, 0) == -1,
        scope_stack(new) == Some(
            scope_stack(unbound)->0.update(
                scope_stack(unbound)->0.len() - 1,
                scope_stack(unbound)->0.last().insert(at, (name, nid)),
            ),
        ),
        live(parsed, nid),
        t is Some ==> parsed[nid as int]->0.typ@ == t->0,
    ensures
        known(bound_env(types_in_scope(old), name, t), new),
        outer_kept(old, new, (scope_stack(old)->0.len() - 1) as nat),
{
    let top = (scope_stack(old)->0.len() - 1) as nat;
    lemma_scope_kept_types(old, parsed);
    let cell = unbound[nid as int];
    lemma_defined_types(unbound, new, name, nid, at);
    lemma_outer_scope_kept(old, parsed, top);
    lemma_outer_rebound(parsed, unbound, top);
    lemma_outer_rebound(unbound, new, top);
    lemma_outer_twice(old, parsed, unbound, top);
    lemma_outer_twice(old, unbound, new, top);
    let env = bound_env(types_in_scope(old), name, t);
    assert forall|n: Seq<char>| #[trigger] env.contains_key(n) implies types_in_scope(
        new,
    ).contains_key(n) && types_in_scope(new)[n] == env[n] by {
        if n != name {
            lemma_undefined_types(parsed, unbound, index, n);
            assert(types_in_scope(old).contains_key(n));
            assert(bound_typ(parsed, n) is Some);
            assert(types_in_scope(unbound).contains_key(n));
        }
    }
}

/// The type of the component `index` of a node of the type `start`: that
/// component of a tuple, and `Bot` where there is none.
pub open spec fn component(start: TypV, index: usize) -> TypV {
    match start {
        TypV::Tuple { typs } => if index < typs.len() {
            typs[index as int]
        } else {
            TypV::Bot
        },
        _ => TypV::Bot,
    }
}

/// The types of the names in scope once the control node and the argument
/// are declared as the components 0 and 1 of a start node of the type `start`.
pub open spec fn start_env(env: Map<Seq<char>, TypV>, start: TypV) -> Map<Seq<char>, TypV> {
    env.insert("$ctrl"@, component(start, 0)).insert("arg"@, component(start, 1))
}

/// What the program at `p` builds, with a start node of the type `start`:
/// what its block builds where the control node and the argument are
/// declared around it.
pub open spec fn program_last(
    s: Seq<char>,
    p: int,
    names: Seq<Set<Seq<char>>>,
    env: Map<Seq<char>, TypV>,
    start: TypV,
) -> Last {
    block_last(s, p, names.push(set!["$ctrl"@, "arg"@]), start_env(env, start))
}

/// If the node in slot `r` of `old` is a return node with its value, it is
/// one in `new`, with a value of the same type, which is folded if it was.
pub open spec fn return_kept(old: Seq<Option<Node>>, new: Seq<Option<Node>>, r: usize) -> bool {
    yields(old, r, None) ==> yields(new, r, None)
        && new[new[r as int]->0.inputs@[1] as int]->0.typ@
        == old[old[r as int]->0.inputs@[1] as int]->0.typ@ && (folded_node(
        old,
        old[r as int]->0.inputs@[1],
    ) ==> folded_node(new, new[r as int]->0.inputs@[1]))
}

/// What is shown of a node is shown of it where a return node is kept.
pub proof fn lemma_shown_kept(old: Seq<Option<Node>>, new: Seq<Option<Node>>, r: usize, last: Last)
    requires
        shown(old, r, last),
        return_kept(old, new, r),
    ensures
        shown(new, r, last),
{
}

/// A pin that is set on a return node, or taken off it, keeps the node.
pub proof fn lemma_return_pinned(old: Seq<Option<Node>>, new: Seq<Option<Node>>, r: usize)
    requires
        live(old, KEEP_ALIVE_NID),
        live(old, r),
        edge_added(old, new, KEEP_ALIVE_NID, r) || edge_removed(old, new, KEEP_ALIVE_NID, r),
    ensures
        return_kept(old, new, r),
{
    if yields(old, r, None) {
        let v = old[r as int]->0.inputs@[1];
        assert(new[r as int]->0.inputs == old[r as int]->0.inputs);
        if v == r {
            lemma_count_push(old[r as int]->0.outputs@, KEEP_ALIVE_NID, r);
            crate::nodes::graph::lemma_count_remove_last(
                old[r as int]->0.outputs@,
                KEEP_ALIVE_NID,
                r,
            );
        } else if v == KEEP_ALIVE_NID {
            assert(new[v as int]->0.outputs == old[v as int]->0.outputs);
        } else {
            assert(new[v as int] == old[v as int]);
        }
    }
}

/// A collection keeps a return node that is pinned.
pub proof fn lemma_return_swept(
    old: Seq<Option<Node>>,
    new: Seq<Option<Node>>,
    gone: Set<usize>,
    r: usize,
)
    requires
        out_mult(old, r, KEEP_ALIVE_NID) > 0,
        collected(old, new),
        swept(old, new, gone),
    ensures
        return_kept(old, new, r),
        out_mult(new, r, KEEP_ALIVE_NID) > 0,
{
    let cell = new[r as int];
    assert(cell is Some);
    assert(!gone.contains(r));
    if yields(old, r, None) {
        let v = old[r as int]->0.inputs@[1];
        let value = new[v as int];
        if !live(new, v) {
            assert(gone.contains(v));
            assert(gone.contains(r));
        }
        assert(out_mult(new, v, r) == out_mult(old, v, r));
    }
}

/// The node in slot `x` is folded: if its type is a compile-time value, it
/// is a constant.
pub open spec fn folded_node(g: Seq<Option<Node>>, x: usize) -> bool {
    g[x as int]->0.typ@.is_constant() ==> constant_node(g, x)
}

/// Every node that the scope stack binds is folded.
pub open spec fn scope_folded(g: Seq<Option<Node>>) -> bool {
    scope_stack(g) is Some ==> forall|x: usize|
        #![trigger folded_node(g, x)]
        bound_count(scope_stack(g)->0, x) > 0 ==> folded_node(g, x)
}

/// The value of the return node in slot `r` is folded, if `last` says that
/// a return node was built.
pub open spec fn value_folded(g: Seq<Option<Node>>, r: usize, last: Last) -> bool {
    last is Return ==> folded_node(g, g[r as int]->0.inputs@[1])
}

/// Where the scope stack and the nodes that the scope node observes are
/// kept, the nodes that are bound stay folded.
pub proof fn lemma_folded_scope_kept(old: Seq<Option<Node>>, new: Seq<Option<Node>>)
    requires
        tidy(old),
        scope_folded(old),
        scope_stack(new) == scope_stack(old),
        bonds_kept(old, new),
    ensures
        scope_folded(new),
{
    let stack = scope_stack(old)->0;
    assert forall|x: usize| #![trigger folded_node(new, x)] bound_count(stack, x) > 0 implies folded_node(
        new,
        x,
    ) by {
        assert(bound_count(stack, x) <= out_mult(old, x, SCOPE_NID));
        assert(out_mult(new, x, SCOPE_NID) == out_mult(old, x, SCOPE_NID));
        assert(folded_node(old, x));
    }
}

/// Where the arena is rebound and every node that the scope stack binds was
/// bound before, or is the folded node `extra`, the nodes that are bound stay
/// folded.
pub proof fn lemma_folded_rebound(old: Seq<Option<Node>>, new: Seq<Option<Node>>, extra: usize)
    requires
        tidy(old),
        scope_folded(old),
        rebound(old, new),
        scope_stack(new) is Some,
        forall|x: usize|
            bound_count(scope_stack(new)->0, x) > 0 ==> #[trigger] bound_count(
                scope_stack(old)->0,
                x,
            ) > 0 || (x == extra && live(old, extra) && folded_node(old, extra)),
    ensures
        scope_folded(new),
        forall|x: usize| live(old, x) && folded_node(old, x) ==> #[trigger] folded_node(new, x),
{
    let stack = scope_stack(old)->0;
    assert forall|x: usize| live(old, x) && folded_node(old, x) implies #[trigger] folded_node(
        new,
        x,
    ) by {
        let cell = new[x as int];
    }
    assert forall|x: usize|
        #![trigger folded_node(new, x)]
        bound_count(scope_stack(new)->0, x) > 0 implies folded_node(new, x) by {
        if bound_count(stack, x) > 0 {
            assert(bound_count(stack, x) <= out_mult(old, x, SCOPE_NID));
            assert(folded_node(old, x));
        }
        assert(live(old, x));
    }
}

/// How often a scope stack binds a node, where only its innermost level has
/// changed: as often as before in the levels below.
pub proof fn lemma_bound_count_top(
    stack: Seq<Seq<(Seq<char>, usize)>>,
    after: Seq<Seq<(Seq<char>, usize)>>,
    x: usize,
)
    requires
        stack.len() > 0,
        after.len() == stack.len(),
        forall|l: int| 0 <= l < stack.len() - 1 ==> after[l] == stack[l],
    ensures
        bound_count(after, x) - count(bound_slots(after.last()), x) == bound_count(stack, x)
            - count(bound_slots(stack.last()), x),
{
    assert(after.drop_last() =~= stack.drop_last());
}

/// A level that gets a binding binds the slot of that binding once more, and
/// every other slot as often as before; a level that loses one binds no slot
/// more often.
pub proof fn lemma_level_slots(level: Seq<(Seq<char>, usize)>, at: int, name: Seq<char>, nid: usize, x: usize)
    ensures
        0 <= at <= level.len() ==> count(bound_slots(level.insert(at, (name, nid))), x) == count(
            bound_slots(level),
            x,
        ) + if x == nid {
            1nat
        } else {
            0nat
        },
        0 <= at < level.len() ==> count(bound_slots(level.remove(at)), x) <= count(
            bound_slots(level),
            x,
        ),
{
    if 0 <= at <= level.len() {
        assert(bound_slots(level.insert(at, (name, nid))) =~= bound_slots(level).insert(at, nid));
        crate::services::scope::lemma_count_insert(bound_slots(level), at, nid, x);
    }
    if 0 <= at < level.len() {
        assert(bound_slots(level.remove(at)) =~= bound_slots(level).remove(at));
        crate::nodes::graph::lemma_count_remove(bound_slots(level), at, x);
    }
}

/// After the folded node `nid` was bound in the innermost scope level, the
/// nodes that are bound are folded, and every folded node is folded still.
pub proof fn lemma_folded_defined(
    old: Seq<Option<Node>>,
    new: Seq<Option<Node>>,
    name: Seq<char>,
    nid: usize,
    at: int,
)
    requires
        tidy(old),
        scope_folded(old),
        rebound(old, new),
        scope_stack(old)->0.len() > 0,
        0 <= at <= scope_stack(old)->0.last().len(),
        scope_stack(new) == Some(
            scope_stack(old)->0.update(
                scope_stack(old)->0.len() - 1,
                scope_stack(old)->0.last().insert(at, (name, nid)),
            ),
        ),
        live(old, nid),
        folded_node(old, nid),
    ensures
        scope_folded(new),
        forall|x: usize| live(old, x) && folded_node(old, x) ==> #[trigger] folded_node(new, x),
{
    let stack = scope_stack(old)->0;
    let after = scope_stack(new)->0;
    assert forall|x: usize| bound_count(after, x) > 0 implies #[trigger] bound_count(stack, x) > 0
        || (x == nid && live(old, nid) && folded_node(old, nid)) by {
        lemma_bound_count_top(stack, after, x);
        lemma_level_slots(stack.last(), at, name, nid, x);
    }
    lemma_folded_rebound(old, new, nid);
}

/// After a binding was taken out of the innermost scope level, or that level
/// was closed, or a level was opened, the nodes that are bound are folded,
/// and every folded node is folded still.
pub proof fn lemma_folded_unbound(old: Seq<Option<Node>>, new: Seq<Option<Node>>, at: int)
    requires
        tidy(old),
        scope_folded(old),
        rebound(old, new),
        scope_stack(old) is Some,
        (scope_stack(old)->0.len() > 0 && scope_stack(new) == Some(
            scope_stack(old)->0.drop_last(),
        )) || scope_stack(new) == Some(scope_stack(old)->0.push(Seq::empty())) || (scope_stack(
            old,
        )->0.len() > 0 && 0 <= at < scope_stack(old)->0.last().len()
            && scope_stack(new) == Some(
            scope_stack(old)->0.update(
                scope_stack(old)->0.len() - 1,
                scope_stack(old)->0.last().remove(at),
            ),
        )),
    ensures
        scope_folded(new),
        forall|x: usize| live(old, x) && folded_node(old, x) ==> #[trigger] folded_node(new, x),
{
    let stack = scope_stack(old)->0;
    let after = scope_stack(new)->0;
    assert forall|x: usize| bound_count(after, x) > 0 implies #[trigger] bound_count(stack, x)
        > 0 by {
        if after == stack.push(Seq::<(Seq<char>, usize)>::empty()) {
            assert(after.drop_last() =~= stack);
            assert(bound_slots(after.last()) =~= Seq::<usize>::empty());
        } else if stack.len() > 0 && after == stack.drop_last() {
        } else {
            assert(after == stack.update(stack.len() - 1, stack.last().remove(at)));
            lemma_bound_count_top(stack, after, x);
            lemma_level_slots(stack.last(), at, Seq::empty(), 0, x);
        }
    }
    lemma_folded_rebound(old, new, 0);
}

impl Parser {
    /// With the optimizer on, from a tidy arena whose bound nodes are folded,
    /// and where `folds` holds, the node returned is folded, and so are the
    /// nodes that are bound afterwards.
    pub open spec fn settles(
        &self,
        before: &Parser,
        r: Result<usize, SoNError>,
        folds: bool,
    ) -> bool {
        tidy(before.graph@) && before.do_optimize && folds && scope_folded(before.graph@) && r
            is Ok ==> folded_node(self.graph@, r->Ok_0) && scope_folded(self.graph@)
    }

    /// With the optimizer on, from a tidy arena whose bound nodes are folded,
    /// and where `folds` holds, the nodes that are bound afterwards are
    /// folded, and so is the value of the return node, if `last` says that
    /// one was built.
    pub open spec fn settles_on(
        &self,
        before: &Parser,
        r: Result<usize, SoNError>,
        folds: bool,
        last: Last,
    ) -> bool {
        tidy(before.graph@) && before.do_optimize && folds && scope_folded(before.graph@) && r
            is Ok ==> scope_folded(self.graph@) && value_folded(self.graph@, r->Ok_0, last)
    }

    /// What a statement owes that has the effect `effect`, where it is parsed
    /// with success from a tidy arena with a scope level: what the effect
    /// knows of the names is right, the node returned is what the effect
    /// says, and the scope levels below the innermost one are kept.
    pub open spec fn advanced(
        &self,
        before: &Parser,
        r: Result<usize, SoNError>,
        effect: Effect,
    ) -> bool {
        tidy(before.graph@) && r is Ok && names(before.graph@).len() > 0 ==> {
            &&& known(effect.env, self.graph@)
            &&& shown(self.graph@, r->Ok_0, effect.last)
            &&& outer_kept(
                before.graph@,
                self.graph@,
                (names(before.graph@).len() - 1) as nat,
            )
        }
    }

    /// Where the part of the program that was parsed has the type `t`, the
    /// node returned carries it, provided that the arena of `before` is tidy.
    pub open spec fn typed(
        &self,
        before: &Parser,
        r: Result<usize, SoNError>,
        t: Option<TypV>,
    ) -> bool {
        tidy(before.graph@) && r is Ok && t is Some ==> self.graph@[r->Ok_0 as int]->0.typ@ == t->0
    }
}

} // verus!
