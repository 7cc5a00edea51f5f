use crate::nodes::graph::{Graph, live};
use crate::nodes::node::{Binding, CompNodeKind, Node, NodeKind};
use crate::services::text::{push_signed_decimal, signed_decimal};
use crate::typ::typ::{Typ, TypV};
use vstd::prelude::*;
use vstd::string::*;

verus! {

/// The text of a lattice element: a concrete integer in decimal notation, a
/// concrete boolean as `true` or `false`, any other element by its name.
pub open spec fn typ_text(t: TypV) -> Seq<char> {
    match t {
        TypV::Bot => "Bot"@,
        TypV::Top => "Top"@,
        TypV::Int { constant } => signed_decimal(constant as int),
        TypV::IntTop => "IntTop"@,
        TypV::IntBot => "IntBot"@,
        TypV::Bool { constant } => if constant {
            "true"@
        } else {
            "false"@
        },
        TypV::BoolTop => "BoolTop"@,
        TypV::BoolBot => "BoolBot"@,
        TypV::Tuple { .. } => "Tuple"@,
        TypV::TupleTop => "TupleTop"@,
        TypV::TupleBot => "TupleBot"@,
        TypV::Ctrl => "Ctrl"@,
    }
}

/// The sign that stands between the operands of a node with two operands.
///
/// The bitwise operators are written singly on integers and doubled on
/// booleans; on a node of any other type a note stands in their place.
pub open spec fn infix_text(kind: NodeKind, t: TypV) -> Seq<char> {
    match kind {
        NodeKind::Add => "+"@,
        NodeKind::Sub => "-"@,
        NodeKind::Mul => "*"@,
        NodeKind::Div => "/"@,
        NodeKind::Comp { kind: CompNodeKind::LT } => " < "@,
        NodeKind::Comp { kind: CompNodeKind::LEQ } => " <= "@,
        NodeKind::Comp { kind: CompNodeKind::EQ } => " == "@,
        NodeKind::Comp { kind: CompNodeKind::LogXor } => " ^ "@,
        NodeKind::Comp { kind: CompNodeKind::LogAnd } => if t.is_int_family() {
            " & "@
        } else if t.is_bool_family() {
            " && "@
        } else {
            "Unsupported LogAnd comparison Typ"@
        },
        NodeKind::Comp { kind: CompNodeKind::LogOr } => if t.is_int_family() {
            " | "@
        } else if t.is_bool_family() {
            " || "@
        } else {
            "Unsupported LogOr comparison Typ"@
        },
        _ => Seq::empty(),
    }
}

/// The text of `node` as an expression over the arena `g`, or `None` where an
/// input that has to be shown is missing or lies more than `fuel` nodes deep.
///
/// A constant shows its type, `Return` shows `return v;`, the arithmetic nodes
/// show their operands in parentheses around the sign, comparisons show theirs
/// without parentheses, a projection shows its label, `Not` shows nothing, and
/// the scope node lists its levels with the nodes bound in them.
pub open spec fn render(g: Seq<Option<Node>>, node: Node, fuel: nat) -> Option<Seq<char>>
    decreases fuel, 0nat, 0nat,
{
    if fuel == 0 {
        None
    } else {
        match node.node_kind {
            NodeKind::Constant => Some(typ_text(node.typ@)),
            NodeKind::Start => Some("Start()"@),
            NodeKind::KeepAlive => Some("KeepAlive()"@),
            NodeKind::Proj { _dbg_proj_label, .. } => Some(_dbg_proj_label@),
            NodeKind::Not => Some(Seq::empty()),
            NodeKind::Return => match render_input(g, node, 1, (fuel - 1) as nat) {
                Some(v) => Some("return "@ + v + ";"@),
                None => None,
            },
            NodeKind::Minus => match render_input(g, node, 0, (fuel - 1) as nat) {
                Some(v) => Some("(-"@ + v + ")"@),
                None => None,
            },
            NodeKind::Add | NodeKind::Sub | NodeKind::Mul | NodeKind::Div => match (
                render_input(g, node, 0, (fuel - 1) as nat),
                render_input(g, node, 1, (fuel - 1) as nat),
            ) {
                (Some(l), Some(r)) => Some(
                    "("@ + l + infix_text(node.node_kind, node.typ@) + r + ")"@,
                ),
                _ => None,
            },
            NodeKind::Comp { .. } => match (
                render_input(g, node, 0, (fuel - 1) as nat),
                render_input(g, node, 1, (fuel - 1) as nat),
            ) {
                (Some(l), Some(r)) => Some(l + infix_text(node.node_kind, node.typ@) + r),
                _ => None,
            },
            NodeKind::Scope { scopes } => match render_levels(
                g,
                scopes@,
                scopes@.len(),
                (fuel - 1) as nat,
            ) {
                Some(v) => Some("Scope("@ + v + ")"@),
                None => None,
            },
        }
    }
}

/// The text of the node in slot `nid`.
pub open spec fn render_slot(g: Seq<Option<Node>>, nid: usize, fuel: nat) -> Option<Seq<char>>
    decreases fuel, 1nat, 0nat,
{
    if live(g, nid) {
        render(g, g[nid as int]->0, fuel)
    } else {
        None
    }
}

/// The text of the `k`-th input of `node`.
pub open spec fn render_input(g: Seq<Option<Node>>, node: Node, k: int, fuel: nat) -> Option<
    Seq<char>,
>
    decreases fuel, 2nat, 0nat,
{
    if 0 <= k < node.inputs@.len() {
        render_slot(g, node.inputs@[k], fuel)
    } else {
        None
    }
}

/// The first `n` bindings of a scope level, each as `name: node`, with `, `
/// between them.
pub open spec fn render_bindings(
    g: Seq<Option<Node>>,
    level: Seq<Binding>,
    n: nat,
    fuel: nat,
) -> Option<
    Seq<char>,
>
    decreases fuel, 3nat, n,
{
    if n == 0 || n > level.len() {
        Some(Seq::empty())
    } else {
        match (
            render_bindings(g, level, (n - 1) as nat, fuel),
            render_slot(g, level[n - 1].nid, fuel),
        ) {
            (Some(before), Some(v)) => Some(
                before + (if n > 1 {
                    ", "@
                } else {
                    Seq::empty()
                }) + level[n - 1].name@ + ": "@ + v,
            ),
            _ => None,
        }
    }
}

/// The first `n` levels of a scope stack, each in square brackets.
pub open spec fn render_levels(
    g: Seq<Option<Node>>,
    scopes: Seq<Vec<Binding>>,
    n: nat,
    fuel: nat,
) -> Option<Seq<char>>
    decreases fuel, 4nat, n,
{
    if n == 0 || n > scopes.len() {
        Some(Seq::empty())
    } else {
        match (
            render_levels(g, scopes, (n - 1) as nat, fuel),
            render_bindings(g, scopes[n - 1]@, scopes[n - 1]@.len(), fuel),
        ) {
            (Some(before), Some(v)) => Some(before + "["@ + v + "]"@),
            _ => None,
        }
    }
}

/// Depth to which `to_string` follows the inputs of a node: no path without
/// a cycle is longer.
pub open spec fn render_fuel(g: Seq<Option<Node>>) -> nat {
    if g.len() < usize::MAX {
        g.len() + 1
    } else {
        g.len()
    }
}

/// Appends the text of a lattice element to `out`.
pub fn push_typ_text(out: &mut String, t: &Typ)
    ensures
        final(out)@ == old(out)@ + typ_text(t@),
{
    match t {
        Typ::Bot => out.append("Bot"),
        Typ::Top => out.append("Top"),
        Typ::Int { constant } => push_signed_decimal(out, *constant),
        Typ::IntTop => out.append("IntTop"),
        Typ::IntBot => out.append("IntBot"),
        Typ::Bool { constant } => if *constant {
            out.append("true")
        } else {
            out.append("false")
        },
        Typ::BoolTop => out.append("BoolTop"),
        Typ::BoolBot => out.append("BoolBot"),
        Typ::Tuple { .. } => out.append("Tuple"),
        Typ::TupleTop => out.append("TupleTop"),
        Typ::TupleBot => out.append("TupleBot"),
        Typ::Ctrl => out.append("Ctrl"),
    }
}

fn push_infix_text(out: &mut String, kind: &NodeKind, t: &Typ)
    ensures
        final(out)@ == old(out)@ + infix_text(*kind, t@),
{
    let int_family = matches!(t, Typ::Int { .. } | Typ::IntTop | Typ::IntBot);
    let bool_family = matches!(t, Typ::Bool { .. } | Typ::BoolTop | Typ::BoolBot);
    match kind {
        NodeKind::Add => out.append("+"),
        NodeKind::Sub => out.append("-"),
        NodeKind::Mul => out.append("*"),
        NodeKind::Div => out.append("/"),
        NodeKind::Comp { kind: CompNodeKind::LT } => out.append(" < "),
        NodeKind::Comp { kind: CompNodeKind::LEQ } => out.append(" <= "),
        NodeKind::Comp { kind: CompNodeKind::EQ } => out.append(" == "),
        NodeKind::Comp { kind: CompNodeKind::LogXor } => out.append(" ^ "),
        NodeKind::Comp { kind: CompNodeKind::LogAnd } => if int_family {
            out.append(" & ")
        } else if bool_family {
            out.append(" && ")
        } else {
            out.append("Unsupported LogAnd comparison Typ")
        },
        NodeKind::Comp { kind: CompNodeKind::LogOr } => if int_family {
            out.append(" | ")
        } else if bool_family {
            out.append(" || ")
        } else {
            out.append("Unsupported LogOr comparison Typ")
        },
        _ => {
            assert(out@ + Seq::<char>::empty() =~= out@);
        },
    }
}

/// Appends the text of `node` to `out`; returns false, with `out` in no
/// particular state, where the node has no text.
fn render_node(graph: &Graph, node: &Node, fuel: usize, out: &mut String) -> (ok: bool)
    ensures
        match render(graph@, *node, fuel as nat) {
            Some(v) => ok && final(out)@ == old(out)@ + v,
            None => !ok,
        },
    decreases fuel, 0nat, 0nat,
{
    if fuel == 0 {
        return false;
    }
    match &node.node_kind {
        NodeKind::Constant => {
            push_typ_text(out, node.typ_ref());
            true
        },
        NodeKind::Start => {
            out.append("Start()");
            true
        },
        NodeKind::KeepAlive => {
            out.append("KeepAlive()");
            true
        },
        NodeKind::Proj { _dbg_proj_label, .. } => {
            out.append(_dbg_proj_label.as_str());
            true
        },
        NodeKind::Not => {
            assert(out@ + Seq::<char>::empty() =~= out@);
            true
        },
        NodeKind::Return => render_wrapped(graph, node, "return ", 1, ";", fuel - 1, out),
        NodeKind::Minus => render_wrapped(graph, node, "(-", 0, ")", fuel - 1, out),
        NodeKind::Add | NodeKind::Sub | NodeKind::Mul | NodeKind::Div => render_infix(
            graph,
            node,
            true,
            fuel - 1,
            out,
        ),
        NodeKind::Comp { .. } => render_infix(graph, node, false, fuel - 1, out),
        NodeKind::Scope { scopes } => {
            out.append("Scope(");
            if !render_scope_levels(graph, scopes, fuel - 1, out) {
                return false;
            }
            out.append(")");
            proof {
                let v = render_levels(graph@, scopes@, scopes@.len(), (fuel - 1) as nat)->0;
                assert(out@ =~= old(out)@ + ("Scope("@ + v + ")"@));
            }
            true
        },
    }
}

/// Appends `open`, the text of the `k`-th input of `node`, and `close` to `out`.
fn render_wrapped(
    graph: &Graph,
    node: &Node,
    open: &str,
    k: usize,
    close: &str,
    fuel: usize,
    out: &mut String,
) -> (ok: bool)
    ensures
        match render_input(graph@, *node, k as int, fuel as nat) {
            Some(v) => ok && final(out)@ == old(out)@ + (open@ + v + close@),
            None => !ok,
        },
    decreases fuel, 5nat, 0nat,
{
    out.append(open);
    if !render_nth_input(graph, node, k, fuel, out) {
        return false;
    }
    out.append(close);
    proof {
        let v = render_input(graph@, *node, k as int, fuel as nat)->0;
        assert(out@ =~= old(out)@ + (open@ + v + close@));
    }
    true
}

/// Appends the first two inputs of `node` to `out`, with the sign of the node
/// between them, and with parentheses around the whole if `parens` is set.
fn render_infix(graph: &Graph, node: &Node, parens: bool, fuel: usize, out: &mut String) -> (ok: bool)
    ensures
        match (
            render_input(graph@, *node, 0, fuel as nat),
            render_input(graph@, *node, 1, fuel as nat),
        ) {
            (Some(l), Some(r)) => ok && final(out)@ == old(out)@ + if parens {
                "("@ + l + infix_text(node.node_kind, node.typ@) + r + ")"@
            } else {
                l + infix_text(node.node_kind, node.typ@) + r
            },
            _ => !ok,
        },
    decreases fuel, 5nat, 0nat,
{
    if parens {
        out.append("(");
    }
    let ghost start = out@;
    if !render_nth_input(graph, node, 0, fuel, out) {
        return false;
    }
    push_infix_text(out, &node.node_kind, node.typ_ref());
    if !render_nth_input(graph, node, 1, fuel, out) {
        return false;
    }
    proof {
        let l = render_input(graph@, *node, 0, fuel as nat)->0;
        let r = render_input(graph@, *node, 1, fuel as nat)->0;
        assert(out@ =~= start + (l + infix_text(node.node_kind, node.typ@) + r));
    }
    if parens {
        out.append(")");
        proof {
            let l = render_input(graph@, *node, 0, fuel as nat)->0;
            let r = render_input(graph@, *node, 1, fuel as nat)->0;
            assert(out@ =~= old(out)@ + ("("@ + l + infix_text(node.node_kind, node.typ@) + r
                + ")"@));
        }
    }
    true
}

/// Appends the bindings of one scope level to `out`.
fn render_level_bindings(graph: &Graph, level: &Vec<Binding>, fuel: usize, out: &mut String) -> (ok: bool)
    ensures
        match render_bindings(graph@, level@, level@.len(), fuel as nat) {
            Some(v) => ok && final(out)@ == old(out)@ + v,
            None => !ok,
        },
    decreases fuel, 3nat, 0nat,
{
    let mut k: usize = 0;
    assert(out@ =~= old(out)@ + Seq::<char>::empty());
    while k < level.len()
        invariant
            k <= level@.len(),
            render_bindings(graph@, level@, k as nat, fuel as nat) is Some,
            out@ == old(out)@ + render_bindings(graph@, level@, k as nat, fuel as nat)->0,
        decreases level.len() - k,
    {
        let ghost sofar = render_bindings(graph@, level@, k as nat, fuel as nat)->0;
        if k > 0 {
            out.append(", ");
        }
        out.append(level[k].name.as_str());
        out.append(": ");
        if !render_nth_slot(graph, level[k].nid, fuel, out) {
            proof {
                assert(render_bindings(graph@, level@, (k + 1) as nat, fuel as nat) is None);
                lemma_bindings_none(graph@, level@, (k + 1) as nat, level@.len(), fuel as nat);
            }
            return false;
        }
        proof {
            let v = render_slot(graph@, level@[k as int].nid, fuel as nat)->0;
            assert(out@ =~= old(out)@ + (sofar + (if k + 1 > 1 {
                ", "@
            } else {
                Seq::empty()
            }) + level@[k as int].name@ + ": "@ + v));
        }
        k += 1;
    }
    true
}

/// Appends the levels of a scope stack to `out`.
fn render_scope_levels(
    graph: &Graph,
    scopes: &Vec<Vec<Binding>>,
    fuel: usize,
    out: &mut String,
) -> (ok: bool)
    ensures
        match render_levels(graph@, scopes@, scopes@.len(), fuel as nat) {
            Some(v) => ok && final(out)@ == old(out)@ + v,
            None => !ok,
        },
    decreases fuel, 4nat, 0nat,
{
    let mut i: usize = 0;
    assert(out@ =~= old(out)@ + Seq::<char>::empty());
    while i < scopes.len()
        invariant
            i <= scopes@.len(),
            render_levels(graph@, scopes@, i as nat, fuel as nat) is Some,
            out@ == old(out)@ + render_levels(graph@, scopes@, i as nat, fuel as nat)->0,
        decreases scopes.len() - i,
    {
        let ghost before = render_levels(graph@, scopes@, i as nat, fuel as nat)->0;
        out.append("[");
        if !render_level_bindings(graph, &scopes[i], fuel, out) {
            proof {
                assert(render_levels(graph@, scopes@, (i + 1) as nat, fuel as nat) is None);
                lemma_levels_none(graph@, scopes@, (i + 1) as nat, scopes@.len(), fuel as nat);
            }
            return false;
        }
        out.append("]");
        proof {
            let v = render_bindings(graph@, scopes@[i as int]@, scopes@[i as int]@.len(), fuel as nat)->0;
            assert(out@ =~= old(out)@ + (before + "["@ + v + "]"@));
        }
        i += 1;
    }
    true
}

fn render_nth_slot(graph: &Graph, nid: usize, fuel: usize, out: &mut String) -> (ok: bool)
    ensures
        match render_slot(graph@, nid, fuel as nat) {
            Some(v) => ok && final(out)@ == old(out)@ + v,
            None => !ok,
        },
    decreases fuel, 1nat, 0nat,
{
    match graph.get_node(nid) {
        Ok(n) => render_node(graph, n, fuel, out),
        Err(_) => false,
    }
}

fn render_nth_input(graph: &Graph, node: &Node, k: usize, fuel: usize, out: &mut String) -> (ok: bool)
    ensures
        match render_input(graph@, *node, k as int, fuel as nat) {
            Some(v) => ok && final(out)@ == old(out)@ + v,
            None => !ok,
        },
    decreases fuel, 2nat, 0nat,
{
    if k < node.inputs.len() {
        render_nth_slot(graph, node.inputs[k], fuel, out)
    } else {
        false
    }
}

/// A binding without text leaves every longer list of bindings without text.
proof fn lemma_bindings_none(g: Seq<Option<Node>>, level: Seq<Binding>, k: nat, n: nat, fuel: nat)
    requires
        render_bindings(g, level, k, fuel) is None,
        k <= n <= level.len(),
    ensures
        render_bindings(g, level, n, fuel) is None,
    decreases n - k,
{
    if k < n {
        lemma_bindings_none(g, level, k, (n - 1) as nat, fuel);
    }
}

/// A level without text leaves every longer stack of levels without text.
proof fn lemma_levels_none(
    g: Seq<Option<Node>>,
    scopes: Seq<Vec<Binding>>,
    k: nat,
    n: nat,
    fuel: nat,
)
    requires
        render_levels(g, scopes, k, fuel) is None,
        k <= n <= scopes.len(),
    ensures
        render_levels(g, scopes, n, fuel) is None,
    decreases n - k,
{
    if k < n {
        lemma_levels_none(g, scopes, k, (n - 1) as nat, fuel);
    }
}

/// A node together with the arena that holds its inputs.
pub struct BoundNode<'a> {
    node: &'a Node,
    graph: &'a Graph,
}

impl<'a> BoundNode<'a> {
    /// The node that is bound.
    pub closed spec fn node(&self) -> Node {
        *self.node
    }

    /// The arena that the node is bound to.
    pub closed spec fn graph(&self) -> Graph {
        *self.graph
    }

    /// Binds a node to the arena that holds its inputs.
    pub fn new(node: &'a Node, graph: &'a Graph) -> (r: BoundNode<'a>)
        ensures
            r.node() == *node,
            r.graph() == *graph,
    {
        BoundNode { node, graph }
    }

    /// Binds another node to the same arena.
    pub fn from(&self, other: &'a Node) -> (r: BoundNode<'a>)
        ensures
            r.node() == *other,
            r.graph() == self.graph(),
    {
        BoundNode::new(other, self.graph)
    }

    /// Whether this node belongs to the control flow graph.
    pub fn is_cfg(&self) -> (r: bool)
        ensures
            r == self.node().node_kind.is_cfg_spec(),
    {
        self.node.node_kind.is_cfg()
    }

    /// The node as an expression, or `None` where an input that has to be shown
    /// is missing or the inputs lead back to the node.
    pub fn to_string(&self) -> (r: Option<String>)
        ensures
            match render(self.graph()@, self.node(), render_fuel(self.graph()@)) {
                Some(v) => r is Some && r->0@ == v,
                None => r is None,
            },
    {
        let len = self.graph.len();
        let fuel = if len < usize::MAX {
            len + 1
        } else {
            len
        };
        let mut out = String::new();
        if render_node(self.graph, self.node, fuel, &mut out) {
            proof {
                let v = render(self.graph()@, self.node(), render_fuel(self.graph()@))->0;
                assert(Seq::<char>::empty() + v =~= v);
            }
            Some(out)
        } else {
            None
        }
    }
}

} // verus!
