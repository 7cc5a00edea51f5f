use crate::nodes::graph::{all_live, inserted, live};
use crate::nodes::node::{CompNodeKind, Node, NodeKind};
use crate::services::node_idealizer::{
    Rewrite, add_rule, comp_rule, is_comp, regroups, rewrite_spec,
};
use crate::services::parser::START_NID;
use crate::services::typ_refiner::{
    bit_not, refine_spec, refined_from, refiner_reads, trunc_div, wrap64,
};
use crate::typ::typ::TypV;
use vstd::prelude::*;

verus! {

/// What a node computes when the program runs.
pub enum Value {
    Int(i64),
    Bool(bool),
}

/// What the operator of a node of kind `kind` makes of the values `a` and
/// `b` of its operands; a unary operator reads `a` alone.  Arithmetic wraps,
/// a division by zero has no value, and an operator has no value on
/// operands that are not of its type.
pub open spec fn apply(kind: NodeKind, a: Option<Value>, b: Option<Value>) -> Option<Value> {
    match kind {
        NodeKind::Add => match (a, b) {
            (Some(Value::Int(x)), Some(Value::Int(y))) => Some(Value::Int(wrap64(x + y))),
            _ => None,
        },
        NodeKind::Sub => match (a, b) {
            (Some(Value::Int(x)), Some(Value::Int(y))) => Some(Value::Int(wrap64(x - y))),
            _ => None,
        },
        NodeKind::Mul => match (a, b) {
            (Some(Value::Int(x)), Some(Value::Int(y))) => Some(Value::Int(wrap64(x * y))),
            _ => None,
        },
        NodeKind::Div => match (a, b) {
            (Some(Value::Int(x)), Some(Value::Int(y))) => if y != 0 {
                Some(Value::Int(wrap64(trunc_div(x as int, y as int))))
            } else {
                None
            },
            _ => None,
        },
        NodeKind::Minus => match a {
            Some(Value::Int(x)) => Some(Value::Int(wrap64(-x))),
            _ => None,
        },
        NodeKind::Not => match a {
            Some(Value::Int(x)) => Some(Value::Int(bit_not(x))),
            Some(Value::Bool(x)) => Some(Value::Bool(!x)),
            _ => None,
        },
        NodeKind::Comp { kind: c } => match (a, b) {
            (Some(Value::Int(x)), Some(Value::Int(y))) => match c {
                CompNodeKind::LT => Some(Value::Bool(x < y)),
                CompNodeKind::LEQ => Some(Value::Bool(x <= y)),
                CompNodeKind::EQ => Some(Value::Bool(x == y)),
                CompNodeKind::LogAnd => Some(Value::Int(x & y)),
                CompNodeKind::LogOr => Some(Value::Int(x | y)),
                CompNodeKind::LogXor => Some(Value::Int(x ^ y)),
            },
            (Some(Value::Bool(x)), Some(Value::Bool(y))) => match c {
                CompNodeKind::LT | CompNodeKind::LEQ => None,
                CompNodeKind::EQ => Some(Value::Bool(x == y)),
                CompNodeKind::LogAnd => Some(Value::Bool(x && y)),
                CompNodeKind::LogOr => Some(Value::Bool(x || y)),
                CompNodeKind::LogXor => Some(Value::Bool(x != y)),
            },
            _ => None,
        },
        _ => None,
    }
}

/// The value of the node in slot `nid` when the argument of the program is
/// `arg`, as far as it follows from nodes at most `fuel` deep: a constant has
/// the value that its type carries, the projection of component 1 of the
/// start node has the value of the argument, and an operator has what it
/// makes of the values of its operands.
pub open spec fn value(g: Seq<Option<Node>>, nid: usize, arg: i64, fuel: nat) -> Option<Value>
    decreases fuel,
{
    if fuel == 0 || !live(g, nid) {
        None
    } else {
        let node = g[nid as int]->0;
        match node.node_kind {
            NodeKind::Constant => match node.typ@ {
                TypV::Int { constant } => Some(Value::Int(constant)),
                TypV::Bool { constant } => Some(Value::Bool(constant)),
                _ => None,
            },
            NodeKind::Proj { proj_index, .. } => if proj_index == 1 && node.inputs@.len() >= 1
                && node.inputs@[0] == START_NID {
                Some(Value::Int(arg))
            } else {
                None
            },
            NodeKind::Minus | NodeKind::Not => if node.inputs@.len() >= 1 {
                apply(node.node_kind, value(g, node.inputs@[0], arg, (fuel - 1) as nat), None)
            } else {
                None
            },
            NodeKind::Add
            | NodeKind::Sub
            | NodeKind::Mul
            | NodeKind::Div
            | NodeKind::Comp { .. } => if node.inputs@.len() >= 2 {
                apply(
                    node.node_kind,
                    value(g, node.inputs@[0], arg, (fuel - 1) as nat),
                    value(g, node.inputs@[1], arg, (fuel - 1) as nat),
                )
            } else {
                None
            },
            _ => None,
        }
    }
}

/// The type `t` is right about the value `v`: where both stand for a
/// concrete value, it is the same one, and a value of a type of the integer
/// family or of the boolean family is an integer or a boolean.
pub open spec fn agrees(t: TypV, v: Option<Value>) -> bool {
    match v {
        Some(Value::Int(x)) => !t.is_bool_family() && (t is Int ==> t == TypV::Int { constant: x }),
        Some(Value::Bool(x)) => !t.is_int_family() && (t is Bool ==> t == TypV::Bool {
            constant: x,
        }),
        None => true,
    }
}

/// The value of what the rewrite `rw` puts in the place of the node `nid`.
pub open spec fn rewritten(
    g: Seq<Option<Node>>,
    nid: usize,
    rw: Rewrite,
    arg: i64,
    fuel: nat,
) -> Option<
    Value,
> {
    let node = g[nid as int]->0;
    let kind = node.node_kind;
    match rw {
        Rewrite::Keep => value(g, nid, arg, fuel),
        Rewrite::Replace { nid: x } => value(g, x, arg, fuel),
        Rewrite::Double { nid: x } => apply(
            NodeKind::Mul,
            value(g, x, arg, fuel),
            Some(Value::Int(2)),
        ),
        Rewrite::Zero => Some(Value::Int(0)),
        Rewrite::False => Some(Value::Bool(false)),
        Rewrite::Swap => apply(
            kind,
            value(g, node.inputs@[1], arg, fuel),
            value(g, node.inputs@[0], arg, fuel),
        ),
        Rewrite::GroupLeft { a, b, c, .. } => apply(
            kind,
            apply(kind, value(g, a, arg, fuel), value(g, b, arg, fuel)),
            value(g, c, arg, fuel),
        ),
        Rewrite::GroupRight { a, b, c, .. } => apply(
            kind,
            value(g, a, arg, fuel),
            apply(kind, value(g, b, arg, fuel), value(g, c, arg, fuel)),
        ),
    }
}

/// A value that follows from nodes of some depth follows from deeper nodes too.
pub proof fn lemma_value_deeper(g: Seq<Option<Node>>, nid: usize, arg: i64, fuel: nat, more: nat)
    requires
        value(g, nid, arg, fuel) is Some,
        fuel <= more,
    ensures
        value(g, nid, arg, more) == value(g, nid, arg, fuel),
    decreases fuel,
{
    let node = g[nid as int]->0;
    if node.inputs@.len() >= 1 {
        if value(g, node.inputs@[0], arg, (fuel - 1) as nat) is Some {
            lemma_value_deeper(g, node.inputs@[0], arg, (fuel - 1) as nat, (more - 1) as nat);
        }
    }
    if node.inputs@.len() >= 2 {
        if value(g, node.inputs@[1], arg, (fuel - 1) as nat) is Some {
            lemma_value_deeper(g, node.inputs@[1], arg, (fuel - 1) as nat, (more - 1) as nat);
        }
    }
}

/// Wrapping does not depend on whether a summand was wrapped before.
pub proof fn lemma_wrap_add(x: int, y: int)
    ensures
        wrap64(wrap64(x) + y) == wrap64(x + y),
        wrap64(x + wrap64(y)) == wrap64(x + y),
{
    vstd::arithmetic::div_mod::lemma_add_mod_noop(x, y, 0x1_0000_0000_0000_0000);
    vstd::arithmetic::div_mod::lemma_add_mod_noop(wrap64(x) as int, y, 0x1_0000_0000_0000_0000);
    vstd::arithmetic::div_mod::lemma_add_mod_noop(x, wrap64(y) as int, 0x1_0000_0000_0000_0000);
    lemma_wrap_mod(x);
    lemma_wrap_mod(y);
}

/// A number and what it wraps to leave the same remainder.
pub proof fn lemma_wrap_mod(x: int)
    ensures
        (wrap64(x) as int) % 0x1_0000_0000_0000_0000 == x % 0x1_0000_0000_0000_0000,
{
    let m = x % 0x1_0000_0000_0000_0000;
    vstd::arithmetic::div_mod::lemma_mod_bound(x, 0x1_0000_0000_0000_0000);
    if m > i64::MAX {
        vstd::arithmetic::div_mod::lemma_mod_multiples_vanish(-1, m, 0x1_0000_0000_0000_0000);
        vstd::arithmetic::div_mod::lemma_small_mod(m as nat, 0x1_0000_0000_0000_0000);
    } else {
        vstd::arithmetic::div_mod::lemma_small_mod(m as nat, 0x1_0000_0000_0000_0000);
    }
}

/// Constant folding is sound for types that are right about values: the
/// refined type of a node that carried `Bot` is right about its value.
pub proof fn lemma_fold_agrees(
    kind: NodeKind,
    ta: TypV,
    tb: TypV,
    va: Option<Value>,
    vb: Option<Value>,
)
    requires
        !(kind is Proj),
        agrees(ta, va),
        agrees(tb, vb),
    ensures
        agrees(refine_spec(kind, TypV::Bot, ta, tb), apply(kind, va, vb)),
{
}

/// Every input of every node of the arena is a node.
pub open spec fn closed(g: Seq<Option<Node>>) -> bool {
    forall|x: usize, k: int|
        live(g, x) && 0 <= k < g[x as int]->0.inputs@.len() ==> live(
            g,
            #[trigger] g[x as int]->0.inputs@[k],
        )
}

/// Creating a node changes the value of no node that was there.
pub proof fn lemma_value_stable(
    old: Seq<Option<Node>>,
    new: Seq<Option<Node>>,
    index: usize,
    inputs: Seq<usize>,
    kind: NodeKind,
    uid: usize,
    typ: TypV,
    x: usize,
    arg: i64,
    fuel: nat,
)
    requires
        inserted(old, new, index, inputs, kind, uid, typ),
        !live(old, index),
        closed(old),
        live(old, x),
    ensures
        value(new, x, arg, fuel) == value(old, x, arg, fuel),
    decreases fuel,
{
    if fuel > 0 {
        let cell = old[x as int];
        let node = old[x as int]->0;
        assert(x != index);
        assert(new[x as int]->0.inputs == node.inputs);
        if node.inputs@.len() >= 1 {
            assert(live(old, node.inputs@[0]));
            lemma_value_stable(
                old,
                new,
                index,
                inputs,
                kind,
                uid,
                typ,
                node.inputs@[0],
                arg,
                (fuel - 1) as nat,
            );
        }
        if node.inputs@.len() >= 2 {
            assert(live(old, node.inputs@[1]));
            lemma_value_stable(
                old,
                new,
                index,
                inputs,
                kind,
                uid,
                typ,
                node.inputs@[1],
                arg,
                (fuel - 1) as nat,
            );
        }
    }
}

/// Creating a node keeps the types right: if the types of the nodes of a
/// closed arena are right about their values, they are still so after a
/// constant was created, or an operator node with the seed type `Bot`,
/// whose type was refined.
pub proof fn lemma_creation_keeps_types(
    old: Seq<Option<Node>>,
    new: Seq<Option<Node>>,
    index: usize,
    inputs: Seq<usize>,
    kind: NodeKind,
    uid: usize,
    seed: TypV,
    arg: i64,
    fuel: nat,
)
    requires
        inserted(old, new, index, inputs, kind, uid, refined_from(old, inputs, kind, seed)),
        !live(old, index),
        all_live(old, inputs),
        inputs.len() >= refiner_reads(kind),
        closed(old),
        forall|f: nat| #[trigger] types_agree(old, arg, f),
        kind is Constant || seed is Bot,
        !(kind is Proj),
    ensures
        types_agree(new, arg, fuel),
        closed(new),
{
    assert forall|x: usize| live(new, x) implies agrees(
        (#[trigger] new[x as int])->0.typ@,
        value(new, x, arg, fuel),
    ) by {
        let typ = refined_from(old, inputs, kind, seed);
        if x != index {
            let cell = old[x as int];
            lemma_value_stable(old, new, index, inputs, kind, uid, typ, x, arg, fuel);
            assert(types_agree(old, arg, fuel));
            assert(agrees(old[x as int]->0.typ@, value(old, x, arg, fuel)));
        } else if fuel > 0 {
            let before = (fuel - 1) as nat;
            assert(types_agree(old, arg, before));
            if inputs.len() >= 1 && refiner_reads(kind) >= 1 {
                assert(live(old, inputs[0]));
                let cell = old[inputs[0] as int];
                lemma_value_stable(old, new, index, inputs, kind, uid, typ, inputs[0], arg, before);
                assert(agrees(old[inputs[0] as int]->0.typ@, value(old, inputs[0], arg, before)));
            }
            if inputs.len() >= 2 && refiner_reads(kind) >= 2 {
                assert(live(old, inputs[1]));
                let cell = old[inputs[1] as int];
                lemma_value_stable(old, new, index, inputs, kind, uid, typ, inputs[1], arg, before);
                assert(agrees(old[inputs[1] as int]->0.typ@, value(old, inputs[1], arg, before)));
            }
            if refiner_reads(kind) >= 2 {
                lemma_fold_agrees(
                    kind,
                    old[inputs[0] as int]->0.typ@,
                    old[inputs[1] as int]->0.typ@,
                    value(new, inputs[0], arg, before),
                    value(new, inputs[1], arg, before),
                );
            } else if refiner_reads(kind) >= 1 {
                lemma_fold_agrees(
                    kind,
                    old[inputs[0] as int]->0.typ@,
                    old[inputs[1] as int]->0.typ@,
                    value(new, inputs[0], arg, before),
                    None,
                );
            }
        }
    }
    assert forall|x: usize, k: int|
        live(new, x) && 0 <= k < new[x as int]->0.inputs@.len() implies live(
        new,
        #[trigger] new[x as int]->0.inputs@[k],
    ) by {
        if x != index {
            let cell = old[x as int];
            assert(new[x as int]->0.inputs == old[x as int]->0.inputs);
            let d = old[x as int]->0.inputs@[k];
            assert(live(old, d));
            let other = old[d as int];
        } else {
            assert(live(old, inputs[k]));
            let other = old[inputs[k] as int];
        }
    }
}

/// The bitwise operators do not depend on the order or on the grouping of
/// their operands; a number leaves itself with `&` and `|` and nothing with `^`.
pub proof fn lemma_bitwise(x: i64, y: i64, z: i64)
    ensures
        x & y == y & x,
        x | y == y | x,
        x ^ y == y ^ x,
        (x & y) & z == x & (y & z),
        (x | y) | z == x | (y | z),
        (x ^ y) ^ z == x ^ (y ^ z),
        x & x == x,
        x | x == x,
        x ^ x == 0,
{
    assert(x & y == y & x) by (bit_vector);
    assert(x | y == y | x) by (bit_vector);
    assert(x ^ y == y ^ x) by (bit_vector);
    assert((x & y) & z == x & (y & z)) by (bit_vector);
    assert((x | y) | z == x | (y | z)) by (bit_vector);
    assert((x ^ y) ^ z == x ^ (y ^ z)) by (bit_vector);
    assert(x & x == x) by (bit_vector);
    assert(x | x == x) by (bit_vector);
    assert(x ^ x == 0) by (bit_vector);
}

/// The types of the nodes are right about their values, as far as these
/// follow from nodes at most `fuel` deep.
pub open spec fn types_agree(g: Seq<Option<Node>>, arg: i64, fuel: nat) -> bool {
    forall|x: usize| live(g, x) ==> agrees((#[trigger] g[x as int])->0.typ@, value(g, x, arg, fuel))
}

/// The value of a node with two operands is what its operator makes of their
/// values, which follow from nodes of the same depth.
pub proof fn lemma_value_of_operands(g: Seq<Option<Node>>, nid: usize, arg: i64, fuel: nat)
    requires
        value(g, nid, arg, fuel) is Some,
        live(g, nid),
        g[nid as int]->0.inputs@.len() >= 2,
        g[nid as int]->0.node_kind is Add || g[nid as int]->0.node_kind is Mul
            || g[nid as int]->0.node_kind is Div || g[nid as int]->0.node_kind is Comp,
    ensures
        value(g, nid, arg, fuel) == apply(
            g[nid as int]->0.node_kind,
            value(g, g[nid as int]->0.inputs@[0], arg, fuel),
            value(g, g[nid as int]->0.inputs@[1], arg, fuel),
        ),
        value(g, g[nid as int]->0.inputs@[0], arg, fuel) is Some,
        value(g, g[nid as int]->0.inputs@[1], arg, fuel) is Some,
{
    let node = g[nid as int]->0;
    lemma_value_deeper(g, node.inputs@[0], arg, (fuel - 1) as nat, fuel);
    lemma_value_deeper(g, node.inputs@[1], arg, (fuel - 1) as nat, fuel);
}

/// Wrapped sums do not depend on the order or on the grouping of the summands.
pub proof fn lemma_sum_algebra(a: i64, b: i64, c: i64)
    ensures
        wrap64(wrap64(a + b) + c) == wrap64(a + wrap64(b + c)),
        wrap64(wrap64(a + b) + c) == wrap64(wrap64(a + c) + b),
        wrap64(a + b) == wrap64(b + a),
        wrap64(a + a) == wrap64(a * 2),
        wrap64(a + 0) == a,
{
    lemma_wrap_add(a + b, c as int);
    lemma_wrap_add(a as int, b + c);
    lemma_wrap_add(a + c, b as int);
    assert(a + b + c == a + c + b);
    assert(a + a == a * 2);
}

/// The rules of the sum are sound.
pub proof fn lemma_add_rule_sound(
    g: Seq<Option<Node>>,
    nid: usize,
    rw: Rewrite,
    arg: i64,
    fuel: nat,
)
    requires
        live(g, nid),
        g[nid as int]->0.node_kind is Add,
        rewrite_spec(g, nid) == Some(rw),
        value(g, nid, arg, fuel) is Some,
        types_agree(g, arg, fuel),
    ensures
        rewritten(g, nid, rw, arg, fuel) == value(g, nid, arg, fuel),
{
    let node = g[nid as int]->0;
    let lhs = node.inputs@[0];
    let rhs = node.inputs@[1];
    lemma_value_of_operands(g, nid, arg, fuel);
    let l = g[lhs as int];
    let r = g[rhs as int];
    let vl = value(g, lhs, arg, fuel)->0->Int_0;
    let vr = value(g, rhs, arg, fuel)->0->Int_0;
    assert(add_rule(g, node) == Some(rw));
    match rw {
        Rewrite::GroupLeft { a, b, c, .. } => {
            if g[rhs as int]->0.node_kind is Add {
                lemma_value_of_operands(g, rhs, arg, fuel);
                lemma_sum_algebra(
                    vl,
                    value(g, b, arg, fuel)->0->Int_0,
                    value(g, c, arg, fuel)->0->Int_0,
                );
            } else {
                lemma_value_of_operands(g, lhs, arg, fuel);
                lemma_sum_algebra(
                    value(g, a, arg, fuel)->0->Int_0,
                    value(g, c, arg, fuel)->0->Int_0,
                    vr,
                );
            }
        },
        Rewrite::GroupRight { a, b, c, .. } => {
            lemma_value_of_operands(g, lhs, arg, fuel);
            lemma_sum_algebra(
                value(g, a, arg, fuel)->0->Int_0,
                value(g, b, arg, fuel)->0->Int_0,
                vr,
            );
        },
        _ => {
            lemma_sum_algebra(vl, vr, 0);
        },
    }
}

/// The rules of the product and of the quotient are sound.
pub proof fn lemma_mul_rule_sound(
    g: Seq<Option<Node>>,
    nid: usize,
    rw: Rewrite,
    arg: i64,
    fuel: nat,
)
    requires
        live(g, nid),
        g[nid as int]->0.node_kind is Mul || g[nid as int]->0.node_kind is Div,
        rewrite_spec(g, nid) == Some(rw),
        value(g, nid, arg, fuel) is Some,
        types_agree(g, arg, fuel),
    ensures
        rewritten(g, nid, rw, arg, fuel) == value(g, nid, arg, fuel),
{
    let node = g[nid as int]->0;
    let lhs = node.inputs@[0];
    let rhs = node.inputs@[1];
    lemma_value_of_operands(g, nid, arg, fuel);
    let l = g[lhs as int];
    let r = g[rhs as int];
    let vl = value(g, lhs, arg, fuel)->0->Int_0;
    let vr = value(g, rhs, arg, fuel)->0->Int_0;
    assert(vl * vr == vr * vl) by (nonlinear_arith);
    assert(vl * 1 == vl);
}

/// The rules of the comparisons and of the bitwise operators are sound, but
/// for one: `(a == b) == c` is not `(a == c) == b` where `a` and `b` are
/// integers and `c` is a boolean, as the latter has no value then.
pub proof fn lemma_comp_rule_sound(
    g: Seq<Option<Node>>,
    nid: usize,
    rw: Rewrite,
    arg: i64,
    fuel: nat,
)
    requires
        live(g, nid),
        g[nid as int]->0.node_kind is Comp,
        rewrite_spec(g, nid) == Some(rw),
        value(g, nid, arg, fuel) is Some,
        types_agree(g, arg, fuel),
        rw is GroupLeft && is_comp(g[nid as int]->0, CompNodeKind::EQ) ==> rewritten(
            g,
            nid,
            rw,
            arg,
            fuel,
        ) is Some,
    ensures
        rewritten(g, nid, rw, arg, fuel) == value(g, nid, arg, fuel),
{
    let node = g[nid as int]->0;
    let lhs = node.inputs@[0];
    let rhs = node.inputs@[1];
    lemma_value_of_operands(g, nid, arg, fuel);
    let me = g[nid as int];
    let l = g[lhs as int];
    let r = g[rhs as int];
    let wl = value(g, lhs, arg, fuel)->0;
    let wr = value(g, rhs, arg, fuel)->0;
    match rw {
        Rewrite::GroupLeft { a, b, c, .. } => {
            let k = node.node_kind->Comp_kind;
            assert(comp_rule(g, node, k) == Some(rw));
            if is_comp(g[rhs as int]->0, k) && regroups(k) {
                lemma_value_of_operands(g, rhs, arg, fuel);
            } else {
                lemma_value_of_operands(g, lhs, arg, fuel);
            }
            let wa = value(g, a, arg, fuel)->0;
            let wb = value(g, b, arg, fuel)->0;
            let wc = value(g, c, arg, fuel)->0;
            if wa is Int && wb is Int && wc is Int {
                lemma_bitwise(wa->Int_0, wb->Int_0, wc->Int_0);
                lemma_bitwise(wa->Int_0, wc->Int_0, wb->Int_0);
                lemma_bitwise(wb->Int_0, wc->Int_0, wa->Int_0);
                lemma_bitwise(wc->Int_0, wb->Int_0, wa->Int_0);
            }
        },
        Rewrite::GroupRight { a, b, c, .. } => {
            lemma_value_of_operands(g, lhs, arg, fuel);
            let wa = value(g, a, arg, fuel)->0;
            let wb = value(g, b, arg, fuel)->0;
            if wa is Int && wb is Int && wr is Int {
                lemma_bitwise(wa->Int_0, wb->Int_0, wr->Int_0);
            }
        },
        _ => {
            if wl is Int && wr is Int {
                lemma_bitwise(wl->Int_0, wr->Int_0, 0);
            }
        },
    }
}

/// The rewrite catalogue is sound: where a node has a value and the types of
/// the nodes are right about their values, what a rewrite puts in the place
/// of the node has the same value.  Left out is the regrouping of a chain of
/// `==` where what takes its place has no value.
pub proof fn lemma_rewrite_sound(g: Seq<Option<Node>>, nid: usize, rw: Rewrite, arg: i64, fuel: nat)
    requires
        rewrite_spec(g, nid) == Some(rw),
        value(g, nid, arg, fuel) is Some,
        types_agree(g, arg, fuel),
        rw is GroupLeft && is_comp(g[nid as int]->0, CompNodeKind::EQ) ==> rewritten(
            g,
            nid,
            rw,
            arg,
            fuel,
        ) is Some,
    ensures
        rewritten(g, nid, rw, arg, fuel) == value(g, nid, arg, fuel),
{
    let node = g[nid as int]->0;
    match node.node_kind {
        NodeKind::Add => lemma_add_rule_sound(g, nid, rw, arg, fuel),
        NodeKind::Mul | NodeKind::Div => lemma_mul_rule_sound(g, nid, rw, arg, fuel),
        NodeKind::Comp { .. } => lemma_comp_rule_sound(g, nid, rw, arg, fuel),
        _ => {},
    }
}

} // verus!
