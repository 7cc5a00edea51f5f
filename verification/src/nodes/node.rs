use crate::errors::son_error::SoNError;
use crate::nodes::bound_node::BoundNode;
use crate::nodes::graph::Graph;
use crate::typ::typ::{Typ, TypV};
use vstd::prelude::*;

verus! {

/// The operator of a comparison node.
#[derive(Clone, Copy, Debug, PartialEq, Eq, Structural)]
pub enum CompNodeKind {
    LT,
    LEQ,
    EQ,
    LogAnd,
    LogOr,
    LogXor,
}

/// One name of a scope level and the slot of the node bound to it.
#[derive(Clone, Debug)]
pub struct Binding {
    pub name: String,
    pub nid: usize,
}

/// What a node does.  The number of its inputs follows from its kind, but for
/// the keep-alive node and the scope node, which gain and lose inputs.
#[derive(Clone, Debug)]
pub enum NodeKind {
    Constant,
    Return,
    Start,
    KeepAlive,
    Add,
    Sub,
    Mul,
    Div,
    Minus,
    /// The stack of scope levels, outermost first; each level lists its
    /// bindings in ascending order of their names.
    Scope { scopes: Vec<Vec<Binding>> },
    Proj { proj_index: usize, _dbg_proj_label: String },
    Comp { kind: CompNodeKind },
    Not,
}

impl NodeKind {
    /// Number of inputs that a node of this kind is created with.
    pub open spec fn arity_spec(self) -> nat {
        match self {
            NodeKind::Start | NodeKind::KeepAlive | NodeKind::Scope { .. } | NodeKind::Constant => 0,
            NodeKind::Minus | NodeKind::Proj { .. } | NodeKind::Not => 1,
            NodeKind::Return
            | NodeKind::Add
            | NodeKind::Sub
            | NodeKind::Mul
            | NodeKind::Div
            | NodeKind::Comp { .. } => 2,
        }
    }

    /// Number of inputs that a node of this kind is created with.
    pub fn arity(&self) -> (r: usize)
        ensures
            r == self.arity_spec(),
    {
        match self {
            NodeKind::Start | NodeKind::KeepAlive | NodeKind::Scope { .. } | NodeKind::Constant => 0,
            NodeKind::Minus | NodeKind::Proj { .. } | NodeKind::Not => 1,
            NodeKind::Return
            | NodeKind::Add
            | NodeKind::Sub
            | NodeKind::Mul
            | NodeKind::Div
            | NodeKind::Comp { .. } => 2,
        }
    }

    /// The two kinds are the same, or both are the kind of the scope node,
    /// whatever scope stack each carries.
    pub open spec fn same_operation(self, other: NodeKind) -> bool {
        self == other || (self is Scope && other is Scope)
    }

    /// Whether a node of this kind lies on the control spine: `Start`, `Return`,
    /// comparisons, `Not`, and the projection of component 0.
    pub open spec fn is_cfg_spec(self) -> bool {
        match self {
            NodeKind::Return | NodeKind::Start | NodeKind::Comp { .. } | NodeKind::Not => true,
            NodeKind::Proj { proj_index, .. } => proj_index == 0,
            _ => false,
        }
    }

    /// Whether a node of this kind lies on the control spine.
    pub fn is_cfg(&self) -> (r: bool)
        ensures
            r == self.is_cfg_spec(),
    {
        match self {
            NodeKind::Return | NodeKind::Start | NodeKind::Comp { .. } | NodeKind::Not => true,
            NodeKind::Constant
            | NodeKind::KeepAlive
            | NodeKind::Add
            | NodeKind::Sub
            | NodeKind::Mul
            | NodeKind::Div
            | NodeKind::Minus
            | NodeKind::Scope { .. } => false,
            NodeKind::Proj { proj_index, .. } => *proj_index == 0,
        }
    }
}

/// A node of the graph.
#[derive(Clone, Debug)]
pub struct Node {
    pub node_kind: NodeKind,
    /// Ordered list of the definitions this node depends on.
    pub inputs: Vec<usize>,
    /// The observers of this node, once for every input edge that reaches it.
    pub outputs: Vec<usize>,
    /// Unique id, taken from a counter that only grows.
    pub uid: usize,
    /// The slot of the arena that holds this node.
    pub nid: usize,
    /// The lattice element that the node carries; `refine_typ` moves it up.
    pub typ: Typ,
}

impl Node {
    /// The lattice element that the node currently carries.
    pub open spec fn typ_view(&self) -> TypV {
        self.typ@
    }

    /// Everything but the type is the same in both nodes.
    pub open spec fn same_but_typ(&self, other: &Node) -> bool {
        &&& self.node_kind == other.node_kind
        &&& self.inputs == other.inputs
        &&& self.outputs == other.outputs
        &&& self.uid == other.uid
        &&& self.nid == other.nid
    }

    /// Everything but the observers is the same in both nodes.
    pub open spec fn same_but_outputs(&self, other: &Node) -> bool {
        &&& self.node_kind == other.node_kind
        &&& self.inputs == other.inputs
        &&& self.uid == other.uid
        &&& self.nid == other.nid
        &&& self.typ_view() == other.typ_view()
    }

    /// Everything but the inputs is the same in both nodes.
    pub open spec fn same_but_inputs(&self, other: &Node) -> bool {
        &&& self.node_kind == other.node_kind
        &&& self.outputs == other.outputs
        &&& self.uid == other.uid
        &&& self.nid == other.nid
        &&& self.typ_view() == other.typ_view()
    }

    /// Everything but the kind is the same in both nodes.
    pub open spec fn same_but_kind(&self, other: &Node) -> bool {
        &&& self.inputs == other.inputs
        &&& self.outputs == other.outputs
        &&& self.uid == other.uid
        &&& self.nid == other.nid
        &&& self.typ_view() == other.typ_view()
    }

    /// A node without edges.
    pub fn new(node_kind: NodeKind, uid: usize, nid: usize, typ: Typ) -> (r: Node)
        ensures
            r.node_kind == node_kind,
            r.inputs@ == Seq::<usize>::empty(),
            r.outputs@ == Seq::<usize>::empty(),
            r.uid == uid,
            r.nid == nid,
            r.typ_view() == typ@,
    {
        Node { node_kind, inputs: Vec::new(), outputs: Vec::new(), uid, nid, typ }
    }

    /// The type of the node.
    pub fn typ(&self) -> (r: Typ)
        ensures
            r@ == self.typ_view(),
    {
        self.typ.clone()
    }

    /// The type of the node, borrowed.
    pub fn typ_ref(&self) -> (r: &Typ)
        ensures
            r@ == self.typ_view(),
    {
        &self.typ
    }

    /// Replaces the type of this node by `typ`, which must lie at or above the
    /// current type: types only move up as optimization proceeds.  A refused
    /// refinement leaves the node as it was.
    pub fn refine_typ(&mut self, typ: Typ) -> (r: Result<(), SoNError>)
        ensures
            final(self).same_but_typ(old(self)),
            match r {
                Ok(_) => old(self).typ_view().transition_allowed(typ@) && final(self).typ_view()
                    == typ@,
                Err(e) => e is TypTransitionNotAllowed && !old(self).typ_view().transition_allowed(
                    typ@,
                ) && *final(self) == *old(self),
            },
    {
        if !self.typ.transition_allowed(&typ) {
            return Err(SoNError::TypTransitionNotAllowed);
        }
        self.typ = typ;
        Ok(())
    }

    /// The node together with the arena that holds its inputs.
    pub fn bind<'a>(&'a self, graph: &'a Graph) -> (r: BoundNode<'a>)
        ensures
            r.node() == *self,
            r.graph() == *graph,
    {
        BoundNode::new(self, graph)
    }
}

impl PartialEq for Node {
    /// Nodes are compared by identity: the same slot and the same unique id.
    fn eq(&self, other: &Node) -> (r: bool) {
        self.nid == other.nid && self.uid == other.uid
    }
}

impl vstd::std_specs::cmp::PartialEqSpecImpl for Node {
    open spec fn obeys_eq_spec() -> bool {
        true
    }

    open spec fn eq_spec(&self, other: &Node) -> bool {
        self.nid == other.nid && self.uid == other.uid
    }
}

} // verus!
