use crate::errors::son_error::SoNError;
use crate::nodes::graph::{
    Graph, all_live, count, edge_added, edge_removed, lemma_count_push, live, out_mult,
};
use crate::nodes::node::{CompNodeKind, Node, NodeKind};
use crate::services::builder::{
    REWRITE_DEPTH, constant_added, created, folds, lemma_constant_stays, node_made, settled,
};
use crate::services::typ_refiner::{refine_spec, refined_from};
use crate::services::parser::{KEEP_ALIVE_NID, Parser, SCOPE_NID};
use crate::services::scope::{constant_node, pins_held, scope_kept};
use crate::typ::typ::{Typ, TypV};
use vstd::prelude::*;

verus! {

/// What the rewrite catalogue asks for on one node.
#[derive(Clone, Copy, Debug, PartialEq, Eq, Structural)]
pub enum Rewrite {
    /// No rule fires: the node stands as it is.
    Keep,
    /// The node is `x+0`, `x*1`, `x/1`, `x && true`, `x || false`, `x & x` or
    /// `x | x`: the operand `nid` takes its place.
    Replace { nid: usize },
    /// The node is `x+x`: the product of `nid` and the constant 2 takes its place.
    Double { nid: usize },
    /// The node is `x^x` on integers: the constant 0 takes its place.
    Zero,
    /// The node is `x^x` on booleans: the constant `false` takes its place.
    False,
    /// The two operands change places, and the node is looked at again.
    Swap,
    /// A new node `(a op b) op c` takes the place of the node.
    GroupLeft { a: usize, b: usize, c: usize, again: bool },
    /// A new node `a op (b op c)` takes the place of the node.
    GroupRight { a: usize, b: usize, c: usize, again: bool },
}

/// The node `n` is a comparison with the operator `k`.
pub open spec fn is_comp(n: Node, k: CompNodeKind) -> bool {
    n.node_kind == (NodeKind::Comp { kind: k })
}

/// The operator commutes, so that its operands can be put in order.
pub open spec fn commutes(k: CompNodeKind) -> bool {
    k == CompNodeKind::EQ || k == CompNodeKind::LogXor || k == CompNodeKind::LogAnd || k
        == CompNodeKind::LogOr
}

/// The operator is one of the bitwise ones, whose chains can be regrouped.
pub open spec fn regroups(k: CompNodeKind) -> bool {
    k == CompNodeKind::LogXor || k == CompNodeKind::LogAnd || k == CompNodeKind::LogOr
}

/// The rule for a sum whose operands `lhs` and `rhs` stand in the arena.
///
/// In this order: `x+0` gives `x`; `x+x` gives `x*2`; a sum on the right of
/// something else moves to the left; `a+(b+c)` becomes `(a+b)+c`; two operands
/// that are no sums are put in the order of their unique ids; `(a+k1)+k2` with
/// constants becomes `a+(k1+k2)`; and `(a+b)+c` becomes `(a+c)+b` where `b` has
/// the greater unique id.
pub open spec fn add_rule(g: Seq<Option<Node>>, node: Node) -> Option<Rewrite> {
    let lhs_nid = node.inputs@[0];
    let rhs_nid = node.inputs@[1];
    let lhs = g[lhs_nid as int]->0;
    let rhs = g[rhs_nid as int]->0;
    let is_lhs_add = lhs.node_kind is Add;
    let is_rhs_add = rhs.node_kind is Add;
    if rhs.typ@ == (TypV::Int { constant: 0 }) {
        Some(Rewrite::Replace { nid: lhs_nid })
    } else if lhs_nid == rhs_nid {
        Some(Rewrite::Double { nid: lhs_nid })
    } else if !is_lhs_add && is_rhs_add {
        Some(Rewrite::Swap)
    } else if is_rhs_add {
        if rhs.inputs@.len() >= 2 {
            Some(
                Rewrite::GroupLeft {
                    a: lhs_nid,
                    b: rhs.inputs@[0],
                    c: rhs.inputs@[1],
                    again: false,
                },
            )
        } else {
            None
        }
    } else if !is_lhs_add {
        if lhs.uid > rhs.uid {
            Some(Rewrite::Swap)
        } else {
            Some(Rewrite::Keep)
        }
    } else if lhs.inputs@.len() >= 2 && live(g, lhs.inputs@[1]) {
        let lhs_rhs = g[lhs.inputs@[1] as int]->0;
        if lhs_rhs.typ@.is_constant() && rhs.typ@.is_constant() {
            Some(
                Rewrite::GroupRight {
                    a: lhs.inputs@[0],
                    b: lhs.inputs@[1],
                    c: rhs_nid,
                    again: false,
                },
            )
        } else if lhs_rhs.uid > rhs.uid {
            Some(
                Rewrite::GroupLeft {
                    a: lhs.inputs@[0],
                    b: rhs_nid,
                    c: lhs.inputs@[1],
                    again: false,
                },
            )
        } else {
            Some(Rewrite::Keep)
        }
    } else {
        None
    }
}

/// The rule for a product: `x*1` gives `x`, and a constant on the left of
/// something else moves to the right.
pub open spec fn mul_rule(g: Seq<Option<Node>>, node: Node) -> Option<Rewrite> {
    let lhs = g[node.inputs@[0] as int]->0;
    let rhs = g[node.inputs@[1] as int]->0;
    if rhs.typ@ == (TypV::Int { constant: 1 }) {
        Some(Rewrite::Replace { nid: node.inputs@[0] })
    } else if lhs.typ@.is_constant() && !rhs.typ@.is_constant() {
        Some(Rewrite::Swap)
    } else {
        Some(Rewrite::Keep)
    }
}

/// The rule for a comparison with the operator `k`.
///
/// In this order: `x && true` and `x || false` give `x`; `x & x` and `x | x`
/// give `x`; `x ^ x` gives 0 or `false`; then the rules of the sum for
/// operators that commute, with regrouping for the bitwise operators only.
pub open spec fn comp_rule(g: Seq<Option<Node>>, node: Node, k: CompNodeKind) -> Option<Rewrite> {
    let lhs_nid = node.inputs@[0];
    let rhs_nid = node.inputs@[1];
    let lhs = g[lhs_nid as int]->0;
    let rhs = g[rhs_nid as int]->0;
    let lhs_same = is_comp(lhs, k);
    let rhs_same = is_comp(rhs, k);
    if (rhs.typ@ == (TypV::Bool { constant: true }) && k == CompNodeKind::LogAnd) || (rhs.typ@ == (
    TypV::Bool { constant: false }) && k == CompNodeKind::LogOr) {
        Some(Rewrite::Replace { nid: lhs_nid })
    } else if lhs_nid == rhs_nid && (k == CompNodeKind::LogAnd || k == CompNodeKind::LogOr) {
        Some(Rewrite::Replace { nid: lhs_nid })
    } else if lhs_nid == rhs_nid && k == CompNodeKind::LogXor && node.typ@.is_int_family() {
        Some(Rewrite::Zero)
    } else if lhs_nid == rhs_nid && k == CompNodeKind::LogXor && node.typ@.is_bool_family() {
        Some(Rewrite::False)
    } else if !lhs_same && rhs_same && commutes(k) {
        Some(Rewrite::Swap)
    } else if rhs_same && regroups(k) {
        if rhs.inputs@.len() >= 2 {
            Some(
                Rewrite::GroupLeft {
                    a: lhs_nid,
                    b: rhs.inputs@[0],
                    c: rhs.inputs@[1],
                    again: false,
                },
            )
        } else {
            None
        }
    } else if !lhs_same && !rhs_same && commutes(k) {
        if lhs.uid > rhs.uid {
            Some(Rewrite::Swap)
        } else {
            Some(Rewrite::Keep)
        }
    } else if lhs_same && commutes(k) {
        if lhs.inputs@.len() >= 2 && live(g, lhs.inputs@[1]) {
            let lhs_rhs = g[lhs.inputs@[1] as int]->0;
            if regroups(k) && lhs_rhs.typ@.is_constant() && rhs.typ@.is_constant() {
                Some(
                    Rewrite::GroupRight {
                        a: lhs.inputs@[0],
                        b: lhs.inputs@[1],
                        c: rhs_nid,
                        again: true,
                    },
                )
            } else if lhs_rhs.uid > rhs.uid {
                Some(
                    Rewrite::GroupLeft {
                        a: lhs.inputs@[0],
                        b: rhs_nid,
                        c: lhs.inputs@[1],
                        again: true,
                    },
                )
            } else {
                Some(Rewrite::Keep)
            }
        } else {
            None
        }
    } else {
        Some(Rewrite::Keep)
    }
}

/// The rewrite that the catalogue asks for on the node in slot `nid`, or `None`
/// where the node, or a node that a rule has to read, is missing.
///
/// Sums, products, quotients and comparisons have rules; a node of any other
/// kind stands as it is.
pub open spec fn rewrite_spec(g: Seq<Option<Node>>, nid: usize) -> Option<Rewrite> {
    if !live(g, nid) {
        None
    } else {
        let node = g[nid as int]->0;
        let both = node.inputs@.len() >= 2 && live(g, node.inputs@[0]) && live(g, node.inputs@[1]);
        match node.node_kind {
            NodeKind::Add => if both {
                add_rule(g, node)
            } else {
                None
            },
            NodeKind::Mul => if both {
                mul_rule(g, node)
            } else {
                None
            },
            NodeKind::Div => if node.inputs@.len() >= 2 && live(g, node.inputs@[1]) {
                if g[node.inputs@[1] as int]->0.typ@ == (TypV::Int { constant: 1 }) {
                    Some(Rewrite::Replace { nid: node.inputs@[0] })
                } else {
                    Some(Rewrite::Keep)
                }
            } else {
                None
            },
            NodeKind::Comp { kind } => if both {
                comp_rule(g, node, kind)
            } else {
                None
            },
            _ => Some(Rewrite::Keep),
        }
    }
}

fn is_int(t: &Typ, value: i64) -> (r: bool)
    ensures
        r == (t@ == (TypV::Int { constant: value })),
{
    match t {
        Typ::Int { constant } => *constant == value,
        _ => false,
    }
}

fn is_bool(t: &Typ, value: bool) -> (r: bool)
    ensures
        r == (t@ == (TypV::Bool { constant: value })),
{
    match t {
        Typ::Bool { constant } => *constant == value,
        _ => false,
    }
}

fn same_comp(n: &Node, k: CompNodeKind) -> (r: bool)
    ensures
        r == is_comp(*n, k),
{
    match &n.node_kind {
        NodeKind::Comp { kind } => *kind == k,
        _ => false,
    }
}

fn select_add(graph: &Graph, node: &Node, lhs: &Node, rhs: &Node) -> (r: Result<Rewrite, SoNError>)
    requires
        node.inputs@.len() >= 2,
        live(graph@, node.inputs@[0]),
        live(graph@, node.inputs@[1]),
        *lhs == graph@[node.inputs@[0] as int]->0,
        *rhs == graph@[node.inputs@[1] as int]->0,
    ensures
        match r {
            Ok(rw) => add_rule(graph@, *node) == Some(rw),
            Err(e) => e is NodeIdNotExisting && add_rule(graph@, *node) is None,
        },
{
    let lhs_nid = node.inputs[0];
    let rhs_nid = node.inputs[1];
    if is_int(rhs.typ_ref(), 0) {
        return Ok(Rewrite::Replace { nid: lhs_nid });
    }
    if lhs_nid == rhs_nid {
        return Ok(Rewrite::Double { nid: lhs_nid });
    }
    let is_lhs_add = matches!(&lhs.node_kind, NodeKind::Add);
    let is_rhs_add = matches!(&rhs.node_kind, NodeKind::Add);
    if !is_lhs_add && is_rhs_add {
        return Ok(Rewrite::Swap);
    }
    if is_rhs_add {
        if rhs.inputs.len() < 2 {
            return Err(SoNError::NodeIdNotExisting);
        }
        return Ok(
            Rewrite::GroupLeft { a: lhs_nid, b: rhs.inputs[0], c: rhs.inputs[1], again: false },
        );
    }
    if !is_lhs_add {
        return if lhs.uid > rhs.uid {
            Ok(Rewrite::Swap)
        } else {
            Ok(Rewrite::Keep)
        };
    }
    if lhs.inputs.len() < 2 {
        return Err(SoNError::NodeIdNotExisting);
    }
    let lhs_lhs_nid = lhs.inputs[0];
    let lhs_rhs_nid = lhs.inputs[1];
    let lhs_rhs = match graph.get_node(lhs_rhs_nid) {
        Ok(n) => n,
        Err(e) => {
            return Err(e);
        },
    };
    if lhs_rhs.typ_ref().is_constant() && rhs.typ_ref().is_constant() {
        return Ok(Rewrite::GroupRight { a: lhs_lhs_nid, b: lhs_rhs_nid, c: rhs_nid, again: false });
    }
    if lhs_rhs.uid > rhs.uid {
        return Ok(Rewrite::GroupLeft { a: lhs_lhs_nid, b: rhs_nid, c: lhs_rhs_nid, again: false });
    }
    Ok(Rewrite::Keep)
}

fn select_comp(graph: &Graph, node: &Node, lhs: &Node, rhs: &Node, k: CompNodeKind) -> (r: Result<
    Rewrite,
    SoNError,
>)
    requires
        node.inputs@.len() >= 2,
        live(graph@, node.inputs@[0]),
        live(graph@, node.inputs@[1]),
        *lhs == graph@[node.inputs@[0] as int]->0,
        *rhs == graph@[node.inputs@[1] as int]->0,
    ensures
        match r {
            Ok(rw) => comp_rule(graph@, *node, k) == Some(rw),
            Err(e) => e is NodeIdNotExisting && comp_rule(graph@, *node, k) is None,
        },
{
    let lhs_nid = node.inputs[0];
    let rhs_nid = node.inputs[1];
    let is_and = matches!(k, CompNodeKind::LogAnd);
    let is_or = matches!(k, CompNodeKind::LogOr);
    let is_xor = matches!(k, CompNodeKind::LogXor);
    let is_eq = matches!(k, CompNodeKind::EQ);
    let bitwise = is_and || is_or || is_xor;
    let commutative = bitwise || is_eq;
    if (is_bool(rhs.typ_ref(), true) && is_and) || (is_bool(rhs.typ_ref(), false) && is_or) {
        return Ok(Rewrite::Replace { nid: lhs_nid });
    }
    if lhs_nid == rhs_nid && (is_and || is_or) {
        return Ok(Rewrite::Replace { nid: lhs_nid });
    }
    if lhs_nid == rhs_nid && is_xor {
        if matches!(node.typ_ref(), Typ::Int { .. } | Typ::IntBot | Typ::IntTop) {
            return Ok(Rewrite::Zero);
        }
        if matches!(node.typ_ref(), Typ::Bool { .. } | Typ::BoolBot | Typ::BoolTop) {
            return Ok(Rewrite::False);
        }
    }
    let lhs_same = same_comp(lhs, k);
    let rhs_same = same_comp(rhs, k);
    if !lhs_same && rhs_same && commutative {
        return Ok(Rewrite::Swap);
    }
    if rhs_same && bitwise {
        if rhs.inputs.len() < 2 {
            return Err(SoNError::NodeIdNotExisting);
        }
        return Ok(
            Rewrite::GroupLeft { a: lhs_nid, b: rhs.inputs[0], c: rhs.inputs[1], again: false },
        );
    }
    if !lhs_same && !rhs_same && commutative {
        return if lhs.uid > rhs.uid {
            Ok(Rewrite::Swap)
        } else {
            Ok(Rewrite::Keep)
        };
    }
    if lhs_same && commutative {
        if lhs.inputs.len() < 2 {
            return Err(SoNError::NodeIdNotExisting);
        }
        let lhs_lhs_nid = lhs.inputs[0];
        let lhs_rhs_nid = lhs.inputs[1];
        let lhs_rhs = match graph.get_node(lhs_rhs_nid) {
            Ok(n) => n,
            Err(e) => {
                return Err(e);
            },
        };
        if bitwise && lhs_rhs.typ_ref().is_constant() && rhs.typ_ref().is_constant() {
            return Ok(
                Rewrite::GroupRight { a: lhs_lhs_nid, b: lhs_rhs_nid, c: rhs_nid, again: true },
            );
        }
        if lhs_rhs.uid > rhs.uid {
            return Ok(
                Rewrite::GroupLeft { a: lhs_lhs_nid, b: rhs_nid, c: lhs_rhs_nid, again: true },
            );
        }
    }
    Ok(Rewrite::Keep)
}

/// Picks the rewrite that the catalogue asks for on the node in slot `nid`.
/// The arena is only read.
pub fn select_rewrite(graph: &Graph, nid: usize) -> (r: Result<Rewrite, SoNError>)
    ensures
        match r {
            Ok(rw) => rewrite_spec(graph@, nid) == Some(rw),
            Err(e) => e is NodeIdNotExisting && rewrite_spec(graph@, nid) is None,
        },
{
    let node = match graph.get_node(nid) {
        Ok(n) => n,
        Err(e) => {
            return Err(e);
        },
    };
    match &node.node_kind {
        NodeKind::Add | NodeKind::Mul | NodeKind::Comp { .. } => {
            if node.inputs.len() < 2 {
                return Err(SoNError::NodeIdNotExisting);
            }
            let lhs = match graph.get_node(node.inputs[0]) {
                Ok(n) => n,
                Err(e) => {
                    return Err(e);
                },
            };
            let rhs = match graph.get_node(node.inputs[1]) {
                Ok(n) => n,
                Err(e) => {
                    return Err(e);
                },
            };
            match &node.node_kind {
                NodeKind::Add => select_add(graph, node, lhs, rhs),
                NodeKind::Comp { kind } => select_comp(graph, node, lhs, rhs, *kind),
                _ => {
                    if is_int(rhs.typ_ref(), 1) {
                        Ok(Rewrite::Replace { nid: node.inputs[0] })
                    } else if lhs.typ_ref().is_constant() && !rhs.typ_ref().is_constant() {
                        Ok(Rewrite::Swap)
                    } else {
                        Ok(Rewrite::Keep)
                    }
                },
            }
        },
        NodeKind::Div => {
            if node.inputs.len() < 2 {
                return Err(SoNError::NodeIdNotExisting);
            }
            let rhs = match graph.get_node(node.inputs[1]) {
                Ok(n) => n,
                Err(e) => {
                    return Err(e);
                },
            };
            if is_int(rhs.typ_ref(), 1) {
                Ok(Rewrite::Replace { nid: node.inputs[0] })
            } else {
                Ok(Rewrite::Keep)
            }
        },
        _ => Ok(Rewrite::Keep),
    }
}

/// Changing the inputs of a node, but not their number, leaves every
/// observer, the scope stack and the kinds and types of all nodes alone.
pub proof fn lemma_swap_frame(old: Seq<Option<Node>>, new: Seq<Option<Node>>, nid: usize)
    requires
        live(old, nid),
        new.len() == old.len(),
        forall|j: usize| j < old.len() && j != nid ==> #[trigger] new[j as int] == old[j as int],
        new[nid as int] is Some,
        new[nid as int]->0.same_but_inputs(&old[nid as int]->0),
        new[nid as int]->0.inputs@.len() == old[nid as int]->0.inputs@.len(),
        old[nid as int]->0.node_kind is Scope ==> new[nid as int]->0.inputs@
            == old[nid as int]->0.inputs@,
        forall|d: usize| #[trigger]
            count(new[nid as int]->0.inputs@, d) == count(old[nid as int]->0.inputs@, d),
    ensures
        pins_held(old, new),
        scope_kept(old, new),
        forall|x: usize, y: usize| #[trigger] out_mult(new, x, y) == out_mult(old, x, y),
{
    assert forall|x: usize, y: usize| #[trigger] out_mult(new, x, y) == out_mult(old, x, y) by {
        if x < old.len() && x != nid {
            assert(new[x as int] == old[x as int]);
        }
    }
    if KEEP_ALIVE_NID < old.len() && KEEP_ALIVE_NID != nid {
        assert(new[KEEP_ALIVE_NID as int] == old[KEEP_ALIVE_NID as int]);
    }
    if SCOPE_NID < old.len() && SCOPE_NID != nid {
        assert(new[SCOPE_NID as int] == old[SCOPE_NID as int]);
    }
}

/// A list whose first two elements change places holds every value as often
/// as before.
pub proof fn lemma_count_swapped(s: Seq<usize>, x: usize)
    requires
        s.len() >= 2,
    ensures
        count(s.update(0, s[1]).update(1, s[0]), x) == count(s, x),
    decreases s.len(),
{
    let t = s.update(0, s[1]).update(1, s[0]);
    if s.len() == 2 {
        let empty = Seq::<usize>::empty();
        crate::nodes::graph::lemma_count_push(empty, s[0], x);
        crate::nodes::graph::lemma_count_push(empty, s[1], x);
        crate::nodes::graph::lemma_count_push(empty.push(s[0]), s[1], x);
        crate::nodes::graph::lemma_count_push(empty.push(s[1]), s[0], x);
        assert(s =~= empty.push(s[0]).push(s[1]));
        assert(t =~= empty.push(s[1]).push(s[0]));
    } else {
        lemma_count_swapped(s.drop_last(), x);
        assert(t.drop_last() =~= s.drop_last().update(0, s[1]).update(1, s[0]));
        assert(t.last() == s.last());
    }
}

/// The product of a node of the type `t` and the constant 2 gives way to a
/// constant where rewrites may nest to the depth `depth`: the optimizer is
/// on, a rewrite is left, and the refiner folds the product.
pub open spec fn double_folds(optimize: bool, depth: usize, t: TypV) -> bool {
    optimize && depth > 0 && refine_spec(
        NodeKind::Mul,
        TypV::Bot,
        t,
        TypV::Int { constant: 2 },
    ).is_constant()
}

/// What `double_at` owes for the node `x`.
///
/// Without the node or the keep-alive node it fails and changes nothing.
/// Else it makes the constant 2 and the product of `x` and that constant, in
/// this order, and where the product folds, the constant that takes its
/// place: it succeeds if and only if the unique ids last for these two, or
/// three, nodes.  The node returned is the last one made: it carries the
/// refined type of the product and has no observer; it is the folded
/// constant, or the product, whose inputs are `x` and a constant of the
/// type of the constant 2.
pub open spec fn doubled(
    before: &Parser,
    after: &Parser,
    x: usize,
    depth: usize,
    r: Result<usize, SoNError>,
) -> bool {
    let g = before.graph@;
    let h = after.graph@;
    let uid = before.graph.next_uid();
    if !(live(g, KEEP_ALIVE_NID) && live(g, x)) {
        r is Err && r->Err_0 is NodeIdNotExisting && h == g
    } else {
        let t = g[x as int]->0.typ@;
        let folded = double_folds(before.do_optimize, depth, t);
        let need: int = if folded {
            3
        } else {
            2
        };
        match r {
            Ok(m) => {
                &&& uid + need <= usize::MAX
                &&& after.graph.next_uid() == uid + need
                &&& live(h, m)
                &&& h[m as int]->0.uid == uid + need - 1
                &&& h[m as int]->0.outputs@.len() == 0
                &&& h[m as int]->0.typ@ == refine_spec(
                    NodeKind::Mul,
                    TypV::Bot,
                    t,
                    TypV::Int { constant: 2 },
                )
                &&& live(h, x)
                &&& h[x as int]->0.typ@ == t
                &&& if folded {
                    h[m as int]->0.node_kind is Constant && h[m as int]->0.inputs@.len() == 0
                } else {
                    &&& h[m as int]->0.node_kind is Mul
                    &&& h[m as int]->0.inputs@.len() == 2
                    &&& h[m as int]->0.inputs@[0] == x
                    &&& constant_node(h, h[m as int]->0.inputs@[1])
                    &&& h[h[m as int]->0.inputs@[1] as int]->0.typ@ == (TypV::Int { constant: 2 })
                }
            },
            Err(e) => e is NodeIdNotExisting && uid + need > usize::MAX,
        }
    }
}

/// The steps of `double_at` add up to what it owes: the pin on `x`, the
/// constant, the product, and the release of the pin.
pub proof fn lemma_doubled(
    state0: Parser,
    state1: Parser,
    state2: Parser,
    state3: Parser,
    state4: Parser,
    x: usize,
    depth: usize,
    two: Result<usize, SoNError>,
    product: Result<usize, SoNError>,
    r: Result<usize, SoNError>,
)
    requires
        live(state0.graph@, KEEP_ALIVE_NID),
        live(state0.graph@, x),
        edge_added(state0.graph@, state1.graph@, KEEP_ALIVE_NID, x),
        state1.same_but_graph(&state0),
        state2.same_but_arena(&state1),
        state3.same_but_arena(&state2),
        state4.same_but_graph(&state3),
        node_made(
            &state1,
            &state2,
            Seq::empty(),
            NodeKind::Constant,
            TypV::Int { constant: 2 },
            two,
        ),
        pins_held(state1.graph@, state2.graph@),
        pins_held(state2.graph@, state3.graph@),
        two is Err ==> product == two && state3 == state2,
        two is Ok ==> {
            let ins = seq![x, two->Ok_0];
            &&& state2.unfolded(ins, NodeKind::Mul, TypV::Bot, depth) ==> node_made(
                &state2,
                &state3,
                ins,
                NodeKind::Mul,
                TypV::Bot,
                product,
            )
            &&& depth > 0 && state2.folding(ins, NodeKind::Mul, TypV::Bot) ==> constant_added(
                state2.graph@,
                state3.graph@,
                refined_from(state2.graph@, ins, NodeKind::Mul, TypV::Bot),
                (state2.graph.next_uid() + 1) as usize,
                product,
            ) && (product is Ok ==> state3.graph.next_uid() == state2.graph.next_uid() + 2)
            &&& !state2.addable(ins, NodeKind::Mul) ==> product is Err && product->Err_0
                is NodeIdNotExisting
        },
        r == product,
        edge_removed(state3.graph@, state4.graph@, KEEP_ALIVE_NID, x),
    ensures
        doubled(&state0, &state4, x, depth, r),
{
    let g0 = state0.graph@;
    let g1 = state1.graph@;
    let g2 = state2.graph@;
    let g3 = state3.graph@;
    let g4 = state4.graph@;
    let t = g0[x as int]->0.typ@;
    let c2 = TypV::Int { constant: 2 };
    lemma_constant_stays(g1, c2);
    lemma_count_push(g0[x as int]->0.outputs@, KEEP_ALIVE_NID, KEEP_ALIVE_NID);
    assert(out_mult(g1, x, KEEP_ALIVE_NID) > 0);
    assert(g1[x as int]->0.typ@ == t);
    let held = g2[x as int];
    assert(out_mult(g2, x, KEEP_ALIVE_NID) > 0);
    assert(g2[x as int]->0.typ@ == t);
    let kept = g3[x as int];
    assert(out_mult(g3, x, KEEP_ALIVE_NID) > 0);
    assert(g3[x as int]->0.typ@ == t);
    assert(live(g1, KEEP_ALIVE_NID) && live(g2, KEEP_ALIVE_NID) && live(g3, KEEP_ALIVE_NID));
    if two is Ok {
        let c = two->Ok_0;
        let ins = seq![x, c];
        assert(ins[0] == x && ins[1] == c);
        assert(live(g2, c) && g2[c as int]->0.typ@ == c2);
        assert(constant_node(g2, c));
        assert(c != x) by {
            if c == x {
                assert(count(g2[c as int]->0.outputs@, KEEP_ALIVE_NID) == 0);
            }
        }
        assert(all_live(g2, ins));
        assert(refined_from(g2, ins, NodeKind::Mul, TypV::Bot) == refine_spec(
            NodeKind::Mul,
            TypV::Bot,
            t,
            c2,
        ));
        let refined = refine_spec(NodeKind::Mul, TypV::Bot, t, c2);
        assert(TypV::Bot.transition_allowed(refined));
        lemma_constant_stays(g2, refined);
        if product is Ok {
            let m = product->Ok_0;
            assert(m != KEEP_ALIVE_NID);
            assert(m != x) by {
                if m == x {
                    assert(count(g3[m as int]->0.outputs@, KEEP_ALIVE_NID) == 0);
                }
            }
            assert(g4[m as int] == g3[m as int]);
            if !double_folds(state0.do_optimize, depth, t) {
                assert(state2.unfolded(ins, NodeKind::Mul, TypV::Bot, depth));
                assert(g3[m as int]->0.inputs@[1] == c);
                assert(live(g3, ins[1]) && g3[ins[1] as int]->0.typ@ == g2[ins[1] as int]->0.typ@);
                assert(constant_node(g3, ins[1]));
                assert(c != KEEP_ALIVE_NID);
                assert(out_mult(g3, c, m) > 0) by {
                    assert(out_mult(g3, ins[1], m) > 0);
                }
                assert(c != x) by {
                    if c == x {
                    }
                }
                if c != x {
                    assert(g4[c as int] == g3[c as int]);
                }
            }
        }
    }
}

/// The list `s` with its first two elements in each other's place.
pub open spec fn swap_first(s: Seq<usize>) -> Seq<usize> {
    if s.len() >= 2 {
        s.update(0, s[1]).update(1, s[0])
    } else {
        s
    }
}

/// `new` is `old` but for the node in slot `nid`, whose first two inputs
/// have changed places if it is a sum, a product or a comparison.
pub open spec fn swapped(old: Seq<Option<Node>>, new: Seq<Option<Node>>, nid: usize) -> bool {
    &&& live(old, nid)
    &&& new.len() == old.len()
    &&& forall|j: usize| j < old.len() && j != nid ==> #[trigger] new[j as int] == old[j as int]
    &&& new[nid as int] is Some
    &&& new[nid as int]->0.same_but_inputs(&old[nid as int]->0)
    &&& new[nid as int]->0.inputs@ == if operands_swap(old[nid as int]->0.node_kind) {
        swap_first(old[nid as int]->0.inputs@)
    } else {
        old[nid as int]->0.inputs@
    }
}

/// The operands of a node of this kind can change places: it is a sum, a
/// product or a comparison.
pub open spec fn operands_swap(kind: NodeKind) -> bool {
    kind is Add || kind is Mul || kind is Comp
}

/// What a peephole owes that looks at the node `nid` of the arena `mid`,
/// whose next unique id is `uid`, with rewrites nested to the depth `depth`
/// at most: at depth 0, and where the node is settled, the node is returned
/// and the arena stays `mid`; a node whose type is a compile-time value gives
/// way to a constant of that type.
pub open spec fn looked_at(
    mid: Seq<Option<Node>>,
    uid: usize,
    after: &Parser,
    nid: usize,
    depth: usize,
    r: Result<usize, SoNError>,
) -> bool {
    &&& !live(mid, nid) ==> r is Err && after.graph@ == mid
    &&& live(mid, nid) && (depth == 0 || settled(mid, nid)) ==> r == Ok::<usize, SoNError>(nid)
        && after.graph@ == mid && after.graph.next_uid() == uid
    &&& depth > 0 && folds(mid, nid) && live(mid, KEEP_ALIVE_NID) ==> constant_added(
        mid,
        after.graph@,
        mid[nid as int]->0.typ@,
        uid,
        r,
    ) && (r is Ok ==> after.graph.next_uid() == uid + 1)
}

/// What `swap_at` owes for the node `nid`: without the node it fails and
/// changes nothing; else the first two inputs of the node change places,
/// and the result is that of a peephole on the node in the arena so changed.
pub open spec fn swapped_then(
    before: &Parser,
    after: &Parser,
    nid: usize,
    depth: usize,
    r: Result<usize, SoNError>,
) -> bool {
    if !live(before.graph@, nid) {
        r is Err && r->Err_0 is NodeIdNotExisting && after.graph@ == before.graph@
    } else {
        exists|mid: Seq<Option<Node>>| #[trigger]
            swapped(before.graph@, mid, nid) && looked_at(
                mid,
                before.graph.next_uid(),
                after,
                nid,
                depth,
                r,
            )
    }
}

/// The operand of a regrouping that the inner node does not take.
pub open spec fn held_operand(a: usize, c: usize, left: bool) -> usize {
    if left {
        c
    } else {
        a
    }
}

/// What `group_at` owes for the operands `a`, `b` and `c` and the operators
/// `inner_op` and `outer_op`.
///
/// Without the keep-alive node, or the operand that the inner node does not
/// take, it fails and changes nothing.  Where no rewrite can take the place
/// of a node, because the optimizer is off or the depth is used up, it makes
/// the inner node and then the outer one: it succeeds if and only if the
/// three operands are there and the unique ids last for two nodes; the node
/// returned is the outer one, with the operator `outer_op`, no observer, the
/// inner node and the operand left over as its inputs, and the refined type of
/// these two; the inner node carries the refined type of its operands.
/// Where rewrites can apply, a node that is returned is there.
pub open spec fn grouped(
    before: &Parser,
    after: &Parser,
    inner_op: NodeKind,
    outer_op: NodeKind,
    a: usize,
    b: usize,
    c: usize,
    left: bool,
    depth: usize,
    r: Result<usize, SoNError>,
) -> bool {
    let g = before.graph@;
    let h = after.graph@;
    let uid = before.graph.next_uid();
    if !(live(g, KEEP_ALIVE_NID) && live(g, held_operand(a, c, left))) {
        r is Err && r->Err_0 is NodeIdNotExisting && h == g
    } else if before.do_optimize && depth > 0 {
        r is Ok ==> live(h, r->Ok_0)
    } else {
        let ta = g[a as int]->0.typ@;
        let tb = g[b as int]->0.typ@;
        let tc = g[c as int]->0.typ@;
        match r {
            Ok(o) => {
                let inner = if left {
                    h[o as int]->0.inputs@[0]
                } else {
                    h[o as int]->0.inputs@[1]
                };
                let ti = if left {
                    refine_spec(inner_op, TypV::Bot, ta, tb)
                } else {
                    refine_spec(inner_op, TypV::Bot, tb, tc)
                };
                &&& live(g, a) && live(g, b) && live(g, c)
                &&& uid + 2 <= usize::MAX
                &&& after.graph.next_uid() == uid + 2
                &&& live(h, o)
                &&& h[o as int]->0.node_kind == outer_op
                &&& h[o as int]->0.uid == uid + 1
                &&& h[o as int]->0.outputs@.len() == 0
                &&& h[o as int]->0.inputs@.len() == 2
                &&& if left {
                    h[o as int]->0.inputs@[1] == c
                } else {
                    h[o as int]->0.inputs@[0] == a
                }
                &&& live(h, inner)
                &&& h[inner as int]->0.typ@ == ti
                &&& h[o as int]->0.typ@ == if left {
                    refine_spec(outer_op, TypV::Bot, ti, tc)
                } else {
                    refine_spec(outer_op, TypV::Bot, ta, ti)
                }
            },
            Err(e) => e is NodeIdNotExisting && !(live(g, a) && live(g, b) && live(g, c) && uid + 2
                <= usize::MAX),
        }
    }
}

/// What `regroup_at` owes for the node `nid`: where the node is no sum and
/// no comparison it fails and changes nothing; else the two nodes are made
/// with its operator as `group_at` says, and where `again` is set the result
/// is that of a peephole on the outer node.
pub open spec fn regrouped(
    before: &Parser,
    after: &Parser,
    nid: usize,
    a: usize,
    b: usize,
    c: usize,
    left: bool,
    again: bool,
    depth: usize,
    r: Result<usize, SoNError>,
) -> bool {
    if !regrouping(before.graph@, nid) {
        r is Err && r->Err_0 is NodeIdNotExisting && after.graph@ == before.graph@
    } else {
        let kind = before.graph@[nid as int]->0.node_kind;
        exists|mid: Parser, outer: Result<usize, SoNError>| #[trigger]
            grouped(before, &mid, kind, kind, a, b, c, left, depth, outer) && match outer {
                Ok(o) => if again {
                    looked_at(mid.graph@, mid.graph.next_uid(), after, o, depth, r)
                } else {
                    r == outer && after.graph == mid.graph
                },
                Err(_) => r == outer && after.graph == mid.graph,
            }
    }
}

/// The steps of `group_at` add up to what it owes: the pin on the operand
/// left over, the inner node, the outer node, and the release of the pin.
pub proof fn lemma_grouped(
    state0: Parser,
    state1: Parser,
    state2: Parser,
    state3: Parser,
    state4: Parser,
    inner_op: NodeKind,
    outer_op: NodeKind,
    a: usize,
    b: usize,
    c: usize,
    left: bool,
    depth: usize,
    inner: Result<usize, SoNError>,
    outer: Result<usize, SoNError>,
)
    requires
        live(state0.graph@, KEEP_ALIVE_NID),
        live(state0.graph@, held_operand(a, c, left)),
        edge_added(state0.graph@, state1.graph@, KEEP_ALIVE_NID, held_operand(a, c, left)),
        state1.same_but_graph(&state0),
        state2.same_but_arena(&state1),
        state3.same_but_arena(&state2),
        state4.same_but_graph(&state3),
        !(state0.do_optimize && depth > 0),
        node_made(
            &state1,
            &state2,
            if left {
                seq![a, b]
            } else {
                seq![b, c]
            },
            inner_op,
            TypV::Bot,
            inner,
        ),
        pins_held(state1.graph@, state2.graph@),
        pins_held(state2.graph@, state3.graph@),
        inner is Err ==> outer == inner && state3 == state2,
        inner is Ok ==> node_made(
            &state2,
            &state3,
            if left {
                seq![inner->Ok_0, c]
            } else {
                seq![a, inner->Ok_0]
            },
            outer_op,
            TypV::Bot,
            outer,
        ),
        edge_removed(state3.graph@, state4.graph@, KEEP_ALIVE_NID, held_operand(a, c, left)),
    ensures
        grouped(&state0, &state4, inner_op, outer_op, a, b, c, left, depth, outer),
{
    let g0 = state0.graph@;
    let g1 = state1.graph@;
    let g2 = state2.graph@;
    let g3 = state3.graph@;
    let g4 = state4.graph@;
    let x = held_operand(a, c, left);
    let first = if left {
        seq![a, b]
    } else {
        seq![b, c]
    };
    lemma_count_push(g0[x as int]->0.outputs@, KEEP_ALIVE_NID, KEEP_ALIVE_NID);
    assert(out_mult(g1, x, KEEP_ALIVE_NID) > 0);
    let held = g2[x as int];
    assert(out_mult(g2, x, KEEP_ALIVE_NID) > 0);
    let kept = g3[x as int];
    assert(out_mult(g3, x, KEEP_ALIVE_NID) > 0);
    assert(g2[x as int]->0.typ@ == g0[x as int]->0.typ@);
    assert(live(g1, KEEP_ALIVE_NID) && live(g2, KEEP_ALIVE_NID));
    assert(first[0] == (if left {
        a
    } else {
        b
    }) && first[1] == (if left {
        b
    } else {
        c
    }));
    assert forall|y: usize| live(g1, y) == live(g0, y) by {
        if y < g0.len() && y != x && y != KEEP_ALIVE_NID {
            assert(g1[y as int] == g0[y as int]);
        }
    }
    assert forall|y: usize| live(g0, y) implies g1[y as int]->0.typ@ == g0[y as int]->0.typ@ by {
        if y != x && y != KEEP_ALIVE_NID {
            assert(g1[y as int] == g0[y as int]);
        }
    }
    if all_live(g1, first) {
        assert(live(g1, first[0]) && live(g1, first[1]));
    } else {
        let k = choose|k: int| 0 <= k < first.len() && !live(g1, #[trigger] first[k]);
    }
    assert(TypV::Bot.transition_allowed(refined_from(g1, first, inner_op, TypV::Bot)));
    if inner is Ok {
        let i = inner->Ok_0;
        let second = if left {
            seq![i, c]
        } else {
            seq![a, i]
        };
        assert(second[0] == (if left {
            i
        } else {
            a
        }) && second[1] == (if left {
            c
        } else {
            x
        }) || !left);
        assert(live(g2, i));
        assert(i != x) by {
            if i == x {
                assert(count(g2[i as int]->0.outputs@, KEEP_ALIVE_NID) == 0);
            }
        }
        assert(live(g2, first[0]) && live(g2, first[1]));
        assert(g2[first[0] as int]->0.typ@ == g1[first[0] as int]->0.typ@);
        assert(g2[first[1] as int]->0.typ@ == g1[first[1] as int]->0.typ@);
        if all_live(g2, second) {
        } else {
            let k = choose|k: int| 0 <= k < second.len() && !live(g2, #[trigger] second[k]);
        }
        assert(TypV::Bot.transition_allowed(refined_from(g2, second, outer_op, TypV::Bot)));
        if outer is Ok {
            let o = outer->Ok_0;
            assert(o != KEEP_ALIVE_NID);
            assert(o != x) by {
                if o == x {
                    assert(count(g3[o as int]->0.outputs@, KEEP_ALIVE_NID) == 0);
                }
            }
            assert(g4[o as int] == g3[o as int]);
            assert(live(g3, second[0]) && live(g3, second[1]));
            assert(g3[second[0] as int]->0.typ@ == g2[second[0] as int]->0.typ@);
            assert(g3[second[1] as int]->0.typ@ == g2[second[1] as int]->0.typ@);
            assert(i != KEEP_ALIVE_NID);
            assert(g4[i as int] == g3[i as int]);
        }
    }
}

/// The node in slot `nid` is a sum or a comparison: a node whose operands
/// can be regrouped under its own operator.
pub open spec fn regrouping(g: Seq<Option<Node>>, nid: usize) -> bool {
    live(g, nid) && (g[nid as int]->0.node_kind is Add || g[nid as int]->0.node_kind is Comp)
}

/// What is owed where the rewrite that the catalogue asks for on the node
/// `nid` is made, with the rewrites that it sets off nested to the depth
/// `depth` at most.
///
/// Where a node that a rule reads is missing, the call fails and changes
/// nothing.  Where no rule fires the node itself is returned, and where an
/// operand takes its place, that operand; in both cases nothing changes.
/// Where the constant 0 or `false` takes its place, that constant is created
/// and returned.  The other rewrites make new nodes as `doubled`,
/// `swapped_then` and `regrouped` say.
pub open spec fn rewritten_by(
    before: &Parser,
    after: &Parser,
    nid: usize,
    depth: usize,
    r: Result<usize, SoNError>,
) -> bool {
    match rewrite_spec(before.graph@, nid) {
        None => r is Err && r->Err_0 is NodeIdNotExisting
            && after.graph@ == before.graph@,
        Some(Rewrite::Keep) => r == Ok::<usize, SoNError>(nid)
            && after.graph_same(before),
        Some(Rewrite::Replace { nid: x }) => r == Ok::<usize, SoNError>(x)
            && after.graph_same(before),
        Some(Rewrite::Zero) => live(before.graph@, KEEP_ALIVE_NID) ==> constant_added(
            before.graph@,
            after.graph@,
            TypV::Int { constant: 0 },
            before.graph.next_uid(),
            r,
        ),
        Some(Rewrite::False) => live(before.graph@, KEEP_ALIVE_NID) ==> constant_added(
            before.graph@,
            after.graph@,
            TypV::Bool { constant: false },
            before.graph.next_uid(),
            r,
        ),
        Some(Rewrite::Double { nid: x }) => doubled(before, after, x, depth, r),
        Some(Rewrite::Swap) => swapped_then(before, after, nid, depth, r),
        Some(Rewrite::GroupLeft { a, b, c, again }) => regrouped(
            before,
            after,
            nid,
            a,
            b,
            c,
            true,
            again,
            depth,
            r,
        ),
        Some(Rewrite::GroupRight { a, b, c, again }) => regrouped(
            before,
            after,
            nid,
            a,
            b,
            c,
            false,
            again,
            depth,
            r,
        ),
    }
}

impl Parser {
    /// Applies the rewrite catalogue to the node `nid` and returns the slot of
    /// the node to use in its place.
    ///
    /// Where no rule fires the node itself is returned, and where an operand
    /// takes its place, that operand; in both cases nothing changes.  Nothing
    /// changes either when the node, or a node that a rule has to read, is
    /// missing.  Where the constant 0 or `false` takes its place, that
    /// constant is created and returned.  The other rewrites make new nodes
    /// as `doubled`, `swapped_then` and `regrouped` say.
    pub fn idealize_node(&mut self, nid: usize) -> (r: Result<usize, SoNError>)
        ensures
            final(self).same_but_arena(old(self)),
            final(self).grows_from(old(self)),
            r is Ok ==> scope_kept(old(self).graph@, final(self).graph@),
            pins_held(old(self).graph@, final(self).graph@),
            final(self).linked_from(old(self)),
            rewritten_by(old(self), final(self), nid, (REWRITE_DEPTH - 1) as usize, r),
            r is Err ==> r->Err_0 is NodeIdNotExisting || r->Err_0 is TypTransitionNotAllowed,
    {
        self.idealize_at(nid, REWRITE_DEPTH)
    }

    /// As `idealize_node`, with rewrites nested to the depth `depth` at most:
    /// at depth 0 the node is returned as it stands.
    pub(crate) fn idealize_at(&mut self, nid: usize, depth: usize) -> (r: Result<usize, SoNError>)
        ensures
            final(self).same_but_arena(old(self)),
            final(self).grows_from(old(self)),
            r is Ok ==> scope_kept(old(self).graph@, final(self).graph@),
            pins_held(old(self).graph@, final(self).graph@),
            final(self).linked_from(old(self)),
            depth == 0 ==> r == Ok::<usize, SoNError>(nid) && final(self).graph_same(old(self)),
            depth > 0 ==> rewritten_by(old(self), final(self), nid, (depth - 1) as usize, r),
            r is Err ==> r->Err_0 is NodeIdNotExisting || r->Err_0 is TypTransitionNotAllowed,
        decreases depth, 0nat,
    {
        if depth == 0 {
            return Ok(nid);
        }
        let rewrite = match select_rewrite(&self.graph, nid) {
            Ok(rw) => rw,
            Err(e) => {
                return Err(e);
            },
        };
        proof {
            lemma_constant_stays(self.graph@, TypV::Int { constant: 0 });
            lemma_constant_stays(self.graph@, TypV::Bool { constant: false });
        }
        match rewrite {
            Rewrite::Keep => Ok(nid),
            Rewrite::Replace { nid: x } => Ok(x),
            Rewrite::Double { nid: x } => self.double_at(x, depth - 1),
            Rewrite::Zero => self.add_node_at(
                Vec::new(),
                NodeKind::Constant,
                Typ::Int { constant: 0 },
                depth - 1,
            ),
            Rewrite::False => self.add_node_at(
                Vec::new(),
                NodeKind::Constant,
                Typ::Bool { constant: false },
                depth - 1,
            ),
            Rewrite::Swap => self.swap_at(nid, depth - 1),
            Rewrite::GroupLeft { a, b, c, again } => self.regroup_at(
                nid,
                a,
                b,
                c,
                true,
                again,
                depth - 1,
            ),
            Rewrite::GroupRight { a, b, c, again } => self.regroup_at(
                nid,
                a,
                b,
                c,
                false,
                again,
                depth - 1,
            ),
        }
    }

    /// Makes the product of the node `x` and the constant 2; `x` is pinned
    /// while the two nodes are made.
    fn double_at(&mut self, x: usize, depth: usize) -> (r: Result<usize, SoNError>)
        ensures
            final(self).same_but_arena(old(self)),
            final(self).grows_from(old(self)),
            r is Ok ==> scope_kept(old(self).graph@, final(self).graph@),
            pins_held(old(self).graph@, final(self).graph@),
            final(self).linked_from(old(self)),
            r is Err ==> r->Err_0 is NodeIdNotExisting || r->Err_0 is TypTransitionNotAllowed,
            doubled(old(self), final(self), x, depth, r),
        decreases depth, 3nat,
    {
        match self.keep_node(x) {
            Ok(_) => {},
            Err(e) => {
                return Err(e);
            },
        }
        let ghost state1 = *self;
        let two = self.add_node_at(Vec::new(), NodeKind::Constant, Typ::Int { constant: 2 }, depth);
        let ghost state2 = *self;
        let ghost made = two;
        let product = match two {
            Ok(two) => {
                let inputs = vec![x, two];
                assert(inputs@ =~= seq![x, two]);
                self.add_node_at(inputs, NodeKind::Mul, Typ::Bot, depth)
            },
            Err(e) => Err(e),
        };
        let ghost state3 = *self;
        let ghost multiplied = product;
        let r = self.release(x, product);
        proof {
            let held = state3.graph@[x as int];
            let kept = state2.graph@[x as int];
            lemma_count_push(
                old(self).graph@[x as int]->0.outputs@,
                KEEP_ALIVE_NID,
                KEEP_ALIVE_NID,
            );
            assert(out_mult(state1.graph@, x, KEEP_ALIVE_NID) > 0);
            assert(out_mult(state2.graph@, x, KEEP_ALIVE_NID) > 0);
            assert(out_mult(state3.graph@, x, KEEP_ALIVE_NID) > 0);
            assert(state3.unkeep_outcome(x));
            lemma_doubled(*old(self), state1, state2, state3, *self, x, depth, made, multiplied, r);
        }
        r
    }

    /// Lets the first two inputs of the node `nid`, a sum, a product or a
    /// comparison, change places and looks at the node again.
    fn swap_at(&mut self, nid: usize, depth: usize) -> (r: Result<usize, SoNError>)
        ensures
            final(self).same_but_arena(old(self)),
            final(self).grows_from(old(self)),
            r is Ok ==> scope_kept(old(self).graph@, final(self).graph@),
            pins_held(old(self).graph@, final(self).graph@),
            final(self).linked_from(old(self)),
            r is Err ==> r->Err_0 is NodeIdNotExisting || r->Err_0 is TypTransitionNotAllowed,
            swapped_then(old(self), final(self), nid, depth, r),
        decreases depth, 3nat,
    {
        match self.graph.get_node_mut(nid) {
            Ok(node) => {
                let swaps = matches!(
                    node.node_kind,
                    NodeKind::Add | NodeKind::Mul | NodeKind::Comp { .. }
                );
                if swaps && node.inputs.len() >= 2 {
                    let first = node.inputs[0];
                    let second = node.inputs[1];
                    node.inputs[0] = second;
                    node.inputs[1] = first;
                }
            },
            Err(e) => {
                return Err(e);
            },
        }
        proof {
            let before = old(self).graph@[nid as int]->0.inputs@;
            let after = self.graph@[nid as int]->0.inputs@;
            assert forall|d: usize| #[trigger] count(after, d) == count(before, d) by {
                if before.len() >= 2 && operands_swap(old(self).graph@[nid as int]->0.node_kind) {
                    lemma_count_swapped(before, d);
                    assert(after =~= before.update(0, before[1]).update(1, before[0]));
                }
            }
            lemma_swap_frame(old(self).graph@, self.graph@, nid);
            if old(self).graph.linked() {
                assert forall|d: usize| #[trigger] count(after, d) == count(before, d) by {
                    if before.len() >= 2 && operands_swap(
                        old(self).graph@[nid as int]->0.node_kind,
                    ) {
                        lemma_count_swapped(before, d);
                        assert(after =~= before.update(0, before[1]).update(1, before[0]));
                    }
                }
                crate::services::links::lemma_linked_changed(
                    old(self).graph@,
                    self.graph@,
                    nid,
                    self.graph.next_uid(),
                );
            }
        }
        let ghost mid = self.graph@;
        proof {
            let before = old(self).graph@[nid as int]->0.inputs@;
            let after = mid[nid as int]->0.inputs@;
            if operands_swap(old(self).graph@[nid as int]->0.node_kind) {
                assert(after =~= swap_first(before));
            } else {
                assert(after =~= before);
            }
            assert(swapped(old(self).graph@, mid, nid));
        }
        let r = self.peephole_at(nid, depth);
        proof {
            assert(looked_at(mid, old(self).graph.next_uid(), self, nid, depth, r));
        }
        r
    }

    /// Makes `(a op b) op c`, or `a op (b op c)` if `left` is not set, with the
    /// operator of the node `nid`, and looks at the new node again if `again`
    /// is set.  The operand that the inner node does not take is pinned
    /// while the two nodes are made.
    fn regroup_at(
        &mut self,
        nid: usize,
        a: usize,
        b: usize,
        c: usize,
        left: bool,
        again: bool,
        depth: usize,
    ) -> (r: Result<usize, SoNError>)
        ensures
            final(self).same_but_arena(old(self)),
            final(self).grows_from(old(self)),
            r is Ok ==> scope_kept(old(self).graph@, final(self).graph@),
            pins_held(old(self).graph@, final(self).graph@),
            final(self).linked_from(old(self)),
            r is Err ==> r->Err_0 is NodeIdNotExisting || r->Err_0 is TypTransitionNotAllowed,
            regrouped(old(self), final(self), nid, a, b, c, left, again, depth, r),
        decreases depth, 4nat,
    {
        let (inner_op, outer_op) = match self.operator_of(nid) {
            Ok(op) => op,
            Err(e) => {
                return Err(e);
            },
        };
        let ghost kind = old(self).graph@[nid as int]->0.node_kind;
        let outer = self.group_at(inner_op, outer_op, a, b, c, left, depth);
        let ghost mid = *self;
        let ghost made = outer;
        let r = match outer {
            Ok(outer) => if again {
                self.peephole_at(outer, depth)
            } else {
                Ok(outer)
            },
            Err(e) => Err(e),
        };
        proof {
            assert(grouped(old(self), &mid, kind, kind, a, b, c, left, depth, made));
            if made is Ok && again {
                assert(looked_at(mid.graph@, mid.graph.next_uid(), self, made->Ok_0, depth, r));
            }
        }
        r
    }

    /// Makes the inner node of a regrouping, with the operator `inner_op`, and
    /// the outer one, with the operator `outer_op`, over the operands `a`, `b`
    /// and `c`; the operand that the inner node does not take is pinned
    /// while the two nodes are made.
    #[verifier::rlimit(40)]
    fn group_at(
        &mut self,
        inner_op: NodeKind,
        outer_op: NodeKind,
        a: usize,
        b: usize,
        c: usize,
        left: bool,
        depth: usize,
    ) -> (r: Result<usize, SoNError>)
        ensures
            final(self).same_but_arena(old(self)),
            final(self).grows_from(old(self)),
            r is Ok ==> scope_kept(old(self).graph@, final(self).graph@),
            pins_held(old(self).graph@, final(self).graph@),
            final(self).linked_from(old(self)),
            r is Err ==> r->Err_0 is NodeIdNotExisting || r->Err_0 is TypTransitionNotAllowed,
            grouped(old(self), final(self), inner_op, outer_op, a, b, c, left, depth, r),
        decreases depth, 3nat,
    {
        let held = if left {
            c
        } else {
            a
        };
        match self.keep_node(held) {
            Ok(_) => {},
            Err(e) => {
                return Err(e);
            },
        }
        let ghost state1 = *self;
        let ghost inner_kind = inner_op;
        let ghost outer_kind = outer_op;
        let inner = if left {
            let inputs = vec![a, b];
            assert(inputs@ =~= seq![a, b]);
            self.add_node_at(inputs, inner_op, Typ::Bot, depth)
        } else {
            let inputs = vec![b, c];
            assert(inputs@ =~= seq![b, c]);
            self.add_node_at(inputs, inner_op, Typ::Bot, depth)
        };
        let ghost state2 = *self;
        let ghost first = inner;
        let outer = match inner {
            Ok(inner) => if left {
                let inputs = vec![inner, c];
                assert(inputs@ =~= seq![inner, c]);
                self.add_node_at(inputs, outer_op, Typ::Bot, depth)
            } else {
                let inputs = vec![a, inner];
                assert(inputs@ =~= seq![a, inner]);
                self.add_node_at(inputs, outer_op, Typ::Bot, depth)
            },
            Err(e) => Err(e),
        };
        let ghost state3 = *self;
        let ghost second = outer;
        let r = self.release(held, outer);
        proof {
            let pinned = state3.graph@[held as int];
            let kept = state2.graph@[held as int];
            lemma_count_push(
                old(self).graph@[held as int]->0.outputs@,
                KEEP_ALIVE_NID,
                KEEP_ALIVE_NID,
            );
            assert(out_mult(state1.graph@, held, KEEP_ALIVE_NID) > 0);
            assert(out_mult(state2.graph@, held, KEEP_ALIVE_NID) > 0);
            assert(out_mult(state3.graph@, held, KEEP_ALIVE_NID) > 0);
            assert(state3.unkeep_outcome(held));
            if !(old(self).do_optimize && depth > 0) {
                lemma_grouped(
                    *old(self),
                    state1,
                    state2,
                    state3,
                    *self,
                    inner_kind,
                    outer_kind,
                    a,
                    b,
                    c,
                    left,
                    depth,
                    first,
                    second,
                );
            } else if r is Ok {
                let o = r->Ok_0;
                assert(live(state3.graph@, o));
                let cell = self.graph@[o as int];
            }
        }
        r
    }

    /// The kind of the node `nid`, twice, for the two nodes that take the place
    /// of a sum or of a comparison.
    fn operator_of(&self, nid: usize) -> (r: Result<(NodeKind, NodeKind), SoNError>)
        ensures
            match r {
                Ok((inner, outer)) => regrouping(self.graph@, nid) && inner
                    == self.graph@[nid as int]->0.node_kind && outer == inner,
                Err(e) => e is NodeIdNotExisting && !regrouping(self.graph@, nid),
            },
    {
        match self.graph.get_node(nid) {
            Ok(node) => match &node.node_kind {
                NodeKind::Add => Ok((NodeKind::Add, NodeKind::Add)),
                NodeKind::Comp { kind } => Ok(
                    (NodeKind::Comp { kind: *kind }, NodeKind::Comp { kind: *kind }),
                ),
                _ => Err(SoNError::NodeIdNotExisting),
            },
            Err(e) => Err(e),
        }
    }
}

} // verus!
