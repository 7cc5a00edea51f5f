use crate::errors::son_error::SoNError;
use crate::nodes::graph::{Graph, live};
use crate::nodes::node::{CompNodeKind, Node, NodeKind};
use crate::typ::typ::{Typ, TypV};
use vstd::prelude::*;

verus! {

/// The signed 64-bit integer that agrees with `x` modulo 2^64.
pub open spec fn wrap64(x: int) -> i64 {
    let m = x % 0x1_0000_0000_0000_0000;
    if m > i64::MAX {
        (m - 0x1_0000_0000_0000_0000) as i64
    } else {
        m as i64
    }
}

/// Quotient rounded toward zero.
pub open spec fn trunc_div(a: int, b: int) -> int
    recommends
        b != 0,
{
    if a >= 0 && b > 0 {
        a / b
    } else if a < 0 && b < 0 {
        (-a) / (-b)
    } else if a < 0 {
        -((-a) / b)
    } else {
        -(a / (-b))
    }
}

/// Bitwise complement of a signed 64-bit integer.
pub open spec fn bit_not(x: i64) -> i64 {
    (-x - 1) as i64
}

proof fn lemma_bit_not(x: i64)
    ensures
        !x == bit_not(x),
{
    assert(!x == (-x - 1) as i64) by (bit_vector);
}

/// Number of leading inputs whose types the refiner reads for a node of this kind.
pub open spec fn refiner_reads(kind: NodeKind) -> nat {
    match kind {
        NodeKind::Add | NodeKind::Sub | NodeKind::Mul | NodeKind::Div | NodeKind::Comp { .. } => 2,
        NodeKind::Minus | NodeKind::Not | NodeKind::Proj { .. } => 1,
        _ => 0,
    }
}

/// The refined type of a node of kind `kind` that carries `current` and whose
/// first two inputs carry `a` and `b`.
///
/// Arithmetic on two concrete integers folds to the wrapped result; a division
/// by zero is not folded.  Comparisons fold to a concrete boolean, the bitwise
/// operators fold integers bit by bit and booleans logically, and a projection
/// picks its component out of a tuple.  In every other case the node keeps
/// its type.
pub open spec fn refine_spec(kind: NodeKind, current: TypV, a: TypV, b: TypV) -> TypV {
    match kind {
        NodeKind::Add => match (a, b) {
            (TypV::Int { constant: x }, TypV::Int { constant: y }) => TypV::Int {
                constant: wrap64(x + y),
            },
            _ => current,
        },
        NodeKind::Sub => match (a, b) {
            (TypV::Int { constant: x }, TypV::Int { constant: y }) => TypV::Int {
                constant: wrap64(x - y),
            },
            _ => current,
        },
        NodeKind::Mul => match (a, b) {
            (TypV::Int { constant: x }, TypV::Int { constant: y }) => TypV::Int {
                constant: wrap64(x * y),
            },
            _ => current,
        },
        NodeKind::Div => match (a, b) {
            (TypV::Int { constant: x }, TypV::Int { constant: y }) => if y != 0 {
                TypV::Int { constant: wrap64(trunc_div(x as int, y as int)) }
            } else {
                current
            },
            _ => current,
        },
        NodeKind::Minus => match a {
            TypV::Int { constant: x } => TypV::Int { constant: wrap64(-x) },
            _ => current,
        },
        NodeKind::Not => match a {
            TypV::Int { constant: x } => TypV::Int { constant: bit_not(x) },
            TypV::Bool { constant: x } => TypV::Bool { constant: !x },
            _ => current,
        },
        NodeKind::Proj { proj_index, .. } => match a {
            TypV::Tuple { typs } => if proj_index < typs.len() {
                typs[proj_index as int]
            } else {
                current
            },
            _ => current,
        },
        NodeKind::Comp { kind: c } => match (a, b) {
            (TypV::Int { constant: x }, TypV::Int { constant: y }) => match c {
                CompNodeKind::LT => TypV::Bool { constant: x < y },
                CompNodeKind::LEQ => TypV::Bool { constant: x <= y },
                CompNodeKind::EQ => TypV::Bool { constant: x == y },
                CompNodeKind::LogAnd => TypV::Int { constant: x & y },
                CompNodeKind::LogOr => TypV::Int { constant: x | y },
                CompNodeKind::LogXor => TypV::Int { constant: x ^ y },
            },
            (TypV::Bool { constant: x }, TypV::Bool { constant: y }) => match c {
                CompNodeKind::LT | CompNodeKind::LEQ => current,
                CompNodeKind::EQ => TypV::Bool { constant: x == y },
                CompNodeKind::LogAnd => TypV::Bool { constant: x && y },
                CompNodeKind::LogOr => TypV::Bool { constant: x || y },
                CompNodeKind::LogXor => TypV::Bool { constant: x != y },
            },
            _ => current,
        },
        _ => current,
    }
}

/// The inputs that the refiner reads for `node` are all there.
pub open spec fn refiner_inputs_live(g: Seq<Option<Node>>, node: Node) -> bool {
    forall|k: int|
        0 <= k < refiner_reads(node.node_kind) ==> k < node.inputs@.len() && live(
            g,
            #[trigger] node.inputs@[k],
        )
}

/// The refined type of a node of kind `kind` that carries `typ` and has the
/// inputs `inputs` in the arena `g`.
pub open spec fn refined_from(
    g: Seq<Option<Node>>,
    inputs: Seq<usize>,
    kind: NodeKind,
    typ: TypV,
) -> TypV {
    refine_spec(kind, typ, g[inputs[0] as int]->0.typ@, g[inputs[1] as int]->0.typ@)
}

/// The refined type of `node` in the arena `g`.
pub open spec fn refined_typ(g: Seq<Option<Node>>, node: Node) -> TypV {
    refined_from(g, node.inputs@, node.node_kind, node.typ@)
}

/// A number that a signed 64-bit integer holds wraps to itself.
pub proof fn lemma_wrap64_in_range(x: int)
    requires
        i64::MIN <= x <= i64::MAX,
    ensures
        wrap64(x) == x,
{
}

/// The wrapping operations of the machine compute sums, differences and
/// products modulo 2^64.
pub proof fn lemma_wrapping_ops(x: i64, y: i64)
    ensures
        vstd::wrapping::i64_specs::wrapping_add(x, y) == wrap64(x + y),
        vstd::wrapping::i64_specs::wrapping_sub(x, y) == wrap64(x - y),
        vstd::wrapping::i64_specs::wrapping_mul(x, y) == wrap64(x * y),
{
}

impl Graph {
    /// Computes the refined type of `node` from the types of its inputs; the
    /// arena is only read.  Fails when an input that has to be read is missing.
    pub fn compute_refined_typ(&self, node: &Node) -> (r: Result<Typ, SoNError>)
        ensures
            match r {
                Ok(t) => refiner_inputs_live(self@, *node) && t@ == refined_typ(self@, *node),
                Err(e) => e is NodeIdNotExisting && !refiner_inputs_live(self@, *node),
            },
    {
        match &node.node_kind {
            NodeKind::Add | NodeKind::Sub | NodeKind::Mul | NodeKind::Div => {
                if node.inputs.len() < 2 {
                    assert(!(1 < node.inputs@.len()));
                    return Err(SoNError::NodeIdNotExisting);
                }
                let lhs = match self.get_node(node.inputs[0]) {
                    Ok(n) => n,
                    Err(e) => {
                        assert(!live(self@, node.inputs@[0]));
                        return Err(e);
                    },
                };
                let rhs = match self.get_node(node.inputs[1]) {
                    Ok(n) => n,
                    Err(e) => {
                        assert(!live(self@, node.inputs@[1]));
                        return Err(e);
                    },
                };
                if let Typ::Int { constant: clhs } = lhs.typ_ref() {
                    if let Typ::Int { constant: crhs } = rhs.typ_ref() {
                        let (x, y): (i64, i64) = (*clhs, *crhs);
                        proof {
                            lemma_wrapping_ops(x, y);
                        }
                        match &node.node_kind {
                            NodeKind::Add => {
                                return Ok(Typ::Int { constant: x.wrapping_add(y) });
                            },
                            NodeKind::Sub => {
                                return Ok(Typ::Int { constant: x.wrapping_sub(y) });
                            },
                            NodeKind::Mul => {
                                return Ok(Typ::Int { constant: x.wrapping_mul(y) });
                            },
                            _ => {
                                if y == 0 {
                                    return Ok(node.typ());
                                }
                                return match x.checked_div(y) {
                                    Some(q) => {
                                        proof {
                                            lemma_wrap64_in_range(q as int);
                                        }
                                        Ok(Typ::Int { constant: q })
                                    },
                                    None => Ok(Typ::Int { constant: i64::MIN }),
                                };
                            },
                        }
                    }
                }
                Ok(node.typ())
            },
            NodeKind::Minus | NodeKind::Not | NodeKind::Proj { .. } => {
                if node.inputs.len() < 1 {
                    assert(!(0 < node.inputs@.len()));
                    return Err(SoNError::NodeIdNotExisting);
                }
                let lhs = match self.get_node(node.inputs[0]) {
                    Ok(n) => n,
                    Err(e) => {
                        assert(!live(self@, node.inputs@[0]));
                        return Err(e);
                    },
                };
                proof {
                    if let Typ::Int { constant } = lhs.typ {
                        lemma_wrapping_ops(0, constant);
                        lemma_bit_not(constant);
                    }
                }
                match (&node.node_kind, lhs.typ_ref()) {
                    (NodeKind::Minus, Typ::Int { constant }) => Ok(Typ::Int { constant: (0i64).wrapping_sub(*constant) }),
                    (NodeKind::Not, Typ::Int { constant }) => Ok(Typ::Int { constant: !*constant }),
                    (NodeKind::Not, Typ::Bool { constant }) => Ok(Typ::Bool { constant: !*constant }),
                    (NodeKind::Proj { proj_index, .. }, Typ::Tuple { typs }) => {
                        if *proj_index < typs.len() {
                            Ok(typs[*proj_index].clone())
                        } else {
                            Ok(node.typ())
                        }
                    },
                    _ => Ok(node.typ()),
                }
            },
            NodeKind::Comp { kind } => {
                if node.inputs.len() < 2 {
                    assert(!(1 < node.inputs@.len()));
                    return Err(SoNError::NodeIdNotExisting);
                }
                let lhs = match self.get_node(node.inputs[0]) {
                    Ok(n) => n,
                    Err(e) => {
                        assert(!live(self@, node.inputs@[0]));
                        return Err(e);
                    },
                };
                let rhs = match self.get_node(node.inputs[1]) {
                    Ok(n) => n,
                    Err(e) => {
                        assert(!live(self@, node.inputs@[1]));
                        return Err(e);
                    },
                };
                match (lhs.typ_ref(), rhs.typ_ref()) {
                    (Typ::Int { constant: x }, Typ::Int { constant: y }) => match kind {
                        CompNodeKind::LT => Ok(Typ::Bool { constant: *x < *y }),
                        CompNodeKind::LEQ => Ok(Typ::Bool { constant: *x <= *y }),
                        CompNodeKind::EQ => Ok(Typ::Bool { constant: *x == *y }),
                        CompNodeKind::LogAnd => Ok(Typ::Int { constant: *x & *y }),
                        CompNodeKind::LogOr => Ok(Typ::Int { constant: *x | *y }),
                        CompNodeKind::LogXor => Ok(Typ::Int { constant: *x ^ *y }),
                    },
                    (Typ::Bool { constant: x }, Typ::Bool { constant: y }) => match kind {
                        CompNodeKind::LT | CompNodeKind::LEQ => Ok(node.typ()),
                        CompNodeKind::EQ => Ok(Typ::Bool { constant: *x == *y }),
                        CompNodeKind::LogAnd => Ok(Typ::Bool { constant: *x && *y }),
                        CompNodeKind::LogOr => Ok(Typ::Bool { constant: *x || *y }),
                        CompNodeKind::LogXor => Ok(Typ::Bool { constant: *x != *y }),
                    },
                    _ => Ok(node.typ()),
                }
            },
            NodeKind::Constant
            | NodeKind::Return
            | NodeKind::Start
            | NodeKind::KeepAlive
            | NodeKind::Scope { .. } => Ok(node.typ()),
        }
    }
}

} // verus!
