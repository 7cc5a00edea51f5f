use crate::nodes::bound_node::{push_typ_text, typ_text};
use crate::nodes::graph::{Graph, live};
use crate::nodes::node::{Binding, CompNodeKind, Node, NodeKind};
use crate::services::parser::{Parser, SCOPE_NID};
use crate::services::scope::{level_view, scope_stack, stack_view};
use crate::services::text::{decimal, push_decimal};
use vstd::prelude::*;
use vstd::string::*;

verus! {

/// The name of the node in slot `nid` in the drawing.
pub open spec fn node_name(nid: usize) -> Seq<char> {
    "Node_"@ + decimal(nid as nat)
}

/// The name of the scope level `level` in the drawing.
pub open spec fn scope_name(level: nat) -> Seq<char> {
    node_name(SCOPE_NID) + "_"@ + decimal(level)
}

/// The label of a node: a constant shows `#` and its type, a projection its
/// label, every other node the sign or the name of its kind.
pub open spec fn icon_text(node: Node) -> Seq<char> {
    match node.node_kind {
        NodeKind::Constant => "#"@ + typ_text(node.typ@),
        NodeKind::Return => "Return"@,
        NodeKind::Start => "Start"@,
        NodeKind::KeepAlive => "KeepAlive"@,
        NodeKind::Add => "+"@,
        NodeKind::Sub => "-"@,
        NodeKind::Mul => "*"@,
        NodeKind::Div => "/"@,
        NodeKind::Minus => "-"@,
        NodeKind::Scope { .. } => "Scope"@,
        NodeKind::Proj { _dbg_proj_label, .. } => _dbg_proj_label@,
        NodeKind::Comp { kind: CompNodeKind::LT } => "<"@,
        NodeKind::Comp { kind: CompNodeKind::LEQ } => "<="@,
        NodeKind::Comp { kind: CompNodeKind::EQ } => "=="@,
        NodeKind::Comp { kind: CompNodeKind::LogAnd } => "&"@,
        NodeKind::Comp { kind: CompNodeKind::LogOr } => "|"@,
        NodeKind::Comp { kind: CompNodeKind::LogXor } => "^"@,
        NodeKind::Not => "!"@,
    }
}

/// The node is drawn among the nodes: all are but the keep-alive node and
/// the scope node.
pub open spec fn drawn(node: Node) -> bool {
    !(node.node_kind is KeepAlive || node.node_kind is Scope)
}

/// The line that declares a node; a control node is a yellow box.
pub open spec fn node_line(node: Node) -> Seq<char> {
    "\t\t"@ + node_name(node.nid) + " [ "@ + (if node.node_kind.is_cfg_spec() {
        "shape=box style=filled fillcolor=yellow "@
    } else {
        Seq::empty()
    }) + "label=\""@ + icon_text(node) + "\" "@ + "];\n"@
}

/// The declarations of the nodes in the first `n` slots.
pub open spec fn node_lines(g: Seq<Option<Node>>, n: nat) -> Seq<char>
    decreases n,
{
    if n == 0 || n > g.len() {
        Seq::empty()
    } else {
        node_lines(g, (n - 1) as nat) + match g[n - 1] {
            Some(node) => if drawn(node) {
                node_line(node)
            } else {
                Seq::empty()
            },
            None => Seq::empty(),
        }
    }
}

/// The table cell of one name of the scope level `level`.
pub open spec fn name_cell(level: nat, name: Seq<char>) -> Seq<char> {
    "<TD PORT=\""@ + scope_name(level) + "_"@ + name + "\">"@ + name + "</TD>"@
}

/// The table cells of the first `n` names of a scope level.
pub open spec fn name_cells(level: nat, names: Seq<(Seq<char>, usize)>, n: nat) -> Seq<char>
    decreases n,
{
    if n == 0 || n > names.len() {
        Seq::empty()
    } else {
        name_cells(level, names, (n - 1) as nat) + name_cell(level, names[n - 1].0)
    }
}

/// The cluster that draws one scope level as a table, left open.
pub open spec fn level_table(level: nat, names: Seq<(Seq<char>, usize)>) -> Seq<char> {
    "\tsubgraph cluster_"@ + scope_name(level) + " {\n\t\t"@ + scope_name(level)
        + " [label=<\n\t\t\t<TABLE BORDER=\"0\" CELLBORDER=\"1\" CELLSPACING=\"0\">\n\t\t\t<TR><TD BGCOLOR=\"cyan\">"@
        + decimal(level) + "</TD>"@ + name_cells(level, names, names.len())
        + "</TR>\n\t\t\t</TABLE>>];\n"@
}

/// The clusters of the first `n` scope levels, each nested in the one before.
pub open spec fn level_tables(stack: Seq<Seq<(Seq<char>, usize)>>, n: nat) -> Seq<char>
    decreases n,
{
    if n == 0 || n > stack.len() {
        Seq::empty()
    } else {
        level_tables(stack, (n - 1) as nat) + level_table((n - 1) as nat, stack[n - 1])
    }
}

/// `n` closing braces, one for each cluster of a scope level.
pub open spec fn closings(n: nat) -> Seq<char>
    decreases n,
{
    if n == 0 {
        Seq::empty()
    } else {
        closings((n - 1) as nat) + "\t}\n"@
    }
}

/// The edge from `node` to its `k`-th input, if that input is a node: dotted
/// from a constant to the start node, red to any other control node.
pub open spec fn edge_line(g: Seq<Option<Node>>, node: Node, k: int) -> Seq<char> {
    let def_nid = node.inputs@[k];
    if live(g, def_nid) {
        let def = g[def_nid as int]->0;
        "\t"@ + node_name(node.nid) + " -> "@ + node_name(def_nid) + "[taillabel="@ + decimal(
            k as nat,
        ) + (if node.node_kind is Constant && def.node_kind is Start {
            " style=dotted"@
        } else if def.node_kind.is_cfg_spec() {
            " color=red"@
        } else {
            Seq::empty()
        }) + "];\n"@
    } else {
        Seq::empty()
    }
}

/// The edges from `node` to its first `n` inputs.
pub open spec fn edges_of(g: Seq<Option<Node>>, node: Node, n: nat) -> Seq<char>
    decreases n,
{
    if n == 0 || n > node.inputs@.len() {
        Seq::empty()
    } else {
        edges_of(g, node, (n - 1) as nat) + edge_line(g, node, n - 1)
    }
}

/// The edges from the nodes in the first `n` slots to their inputs.
pub open spec fn edge_lines(g: Seq<Option<Node>>, n: nat) -> Seq<char>
    decreases n,
{
    if n == 0 || n > g.len() {
        Seq::empty()
    } else {
        edge_lines(g, (n - 1) as nat) + match g[n - 1] {
            Some(node) => if drawn(node) {
                edges_of(g, node, node.inputs@.len())
            } else {
                Seq::empty()
            },
            None => Seq::empty(),
        }
    }
}

/// The edge from a name of the scope level `level` to the node bound to it.
pub open spec fn binding_line(level: nat, name: Seq<char>, nid: usize) -> Seq<char> {
    "\t"@ + scope_name(level) + ":\""@ + scope_name(level) + "_"@ + name + "\""@ + " -> "@
        + node_name(nid) + ";\n"@
}

/// The edges from the first `n` names of a scope level.
pub open spec fn binding_lines(level: nat, names: Seq<(Seq<char>, usize)>, n: nat) -> Seq<char>
    decreases n,
{
    if n == 0 || n > names.len() {
        Seq::empty()
    } else {
        binding_lines(level, names, (n - 1) as nat) + binding_line(
            level,
            names[n - 1].0,
            names[n - 1].1,
        )
    }
}

/// The edges from the names of the first `n` scope levels.
pub open spec fn scope_lines(stack: Seq<Seq<(Seq<char>, usize)>>, n: nat) -> Seq<char>
    decreases n,
{
    if n == 0 || n > stack.len() {
        Seq::empty()
    } else {
        scope_lines(stack, (n - 1) as nat) + binding_lines(
            (n - 1) as nat,
            stack[n - 1],
            stack[n - 1].len(),
        )
    }
}

/// The part of the drawing that shows the scope stack as nested tables;
/// nothing where the arena has no scope node.
pub open spec fn scope_section(g: Seq<Option<Node>>) -> Seq<char> {
    match scope_stack(g) {
        Some(stack) => "\tnode [shape=plaintext];\n"@ + level_tables(stack, stack.len())
            + closings(stack.len()),
        None => Seq::empty(),
    }
}

/// The part of the drawing that ties the names of the scope stack to the
/// nodes bound to them.
pub open spec fn scope_edges(g: Seq<Option<Node>>) -> Seq<char> {
    match scope_stack(g) {
        Some(stack) => scope_lines(stack, stack.len()),
        None => Seq::empty(),
    }
}

/// The drawing of the arena `g` for the source text `src`, in the language of
/// Graphviz: the source as a comment, the nodes in one cluster, the scope
/// levels as tables in nested clusters, then the edges from each node to its
/// inputs and from each name to its node.
pub open spec fn dot_text(src: Seq<char>, g: Seq<Option<Node>>) -> Seq<char> {
    "digraph mygraph{\n"@ + "/*\n"@ + src + "\n*/\n"@ + "\trankdir=BT;\n"@
        + "\tordering=\"in\";\n"@ + "\tconcentrate=\"true\";\n"@ + "\tsubgraph cluster_Nodes {\n"@
        + node_lines(g, g.len()) + "\t}\n"@ + scope_section(g)
        + "\tedge [ fontname=Helvetica, fontsize=8 ];\n"@ + edge_lines(g, g.len())
        + "\tedge [style=dashed color=cornflowerblue];\n"@ + scope_edges(g) + "}\n"@
}

fn push_node_name(out: &mut String, nid: usize)
    ensures
        final(out)@ == old(out)@ + node_name(nid),
{
    out.append("Node_");
    push_decimal(out, nid as u64);
    assert(out@ =~= old(out)@ + node_name(nid));
}

fn push_scope_name(out: &mut String, level: usize)
    ensures
        final(out)@ == old(out)@ + scope_name(level as nat),
{
    push_node_name(out, SCOPE_NID);
    out.append("_");
    push_decimal(out, level as u64);
    assert(out@ =~= old(out)@ + scope_name(level as nat));
}

/// The label of a node in the drawing.
pub fn node_icon(node: &Node) -> (r: String)
    ensures
        r@ == icon_text(*node),
{
    match &node.node_kind {
        NodeKind::Constant => {
            let mut out = String::from_str("#");
            push_typ_text(&mut out, node.typ_ref());
            out
        },
        NodeKind::Return => String::from_str("Return"),
        NodeKind::Start => String::from_str("Start"),
        NodeKind::KeepAlive => String::from_str("KeepAlive"),
        NodeKind::Add => String::from_str("+"),
        NodeKind::Sub => String::from_str("-"),
        NodeKind::Mul => String::from_str("*"),
        NodeKind::Div => String::from_str("/"),
        NodeKind::Minus => String::from_str("-"),
        NodeKind::Scope { .. } => String::from_str("Scope"),
        NodeKind::Proj { _dbg_proj_label, .. } => _dbg_proj_label.clone(),
        NodeKind::Comp { kind: CompNodeKind::LT } => String::from_str("<"),
        NodeKind::Comp { kind: CompNodeKind::LEQ } => String::from_str("<="),
        NodeKind::Comp { kind: CompNodeKind::EQ } => String::from_str("=="),
        NodeKind::Comp { kind: CompNodeKind::LogAnd } => String::from_str("&"),
        NodeKind::Comp { kind: CompNodeKind::LogOr } => String::from_str("|"),
        NodeKind::Comp { kind: CompNodeKind::LogXor } => String::from_str("^"),
        NodeKind::Not => String::from_str("!"),
    }
}

fn push_node_line(out: &mut String, node: &Node)
    ensures
        final(out)@ == old(out)@ + node_line(*node),
{
    out.append("\t\t");
    push_node_name(out, node.nid);
    out.append(" [ ");
    if node.node_kind.is_cfg() {
        out.append("shape=box style=filled fillcolor=yellow ");
    }
    out.append("label=\"");
    let icon = node_icon(node);
    out.append(icon.as_str());
    out.append("\" ");
    out.append("];\n");
    assert(out@ =~= old(out)@ + node_line(*node));
}

fn push_node_lines(out: &mut String, graph: &Graph)
    ensures
        final(out)@ == old(out)@ + node_lines(graph@, graph@.len()),
{
    let len = graph.len();
    let mut i: usize = 0;
    assert(out@ =~= old(out)@ + node_lines(graph@, 0));
    while i < len
        invariant
            i <= len,
            len == graph@.len(),
            out@ == old(out)@ + node_lines(graph@, i as nat),
        decreases len - i,
    {
        let ghost before = out@;
        match graph.get_node(i) {
            Ok(node) => {
                if !matches!(node.node_kind, NodeKind::KeepAlive | NodeKind::Scope { .. }) {
                    push_node_line(out, node);
                }
            },
            Err(_) => {},
        }
        i += 1;
        assert(out@ =~= old(out)@ + node_lines(graph@, i as nat));
    }
}

fn push_name_cells(out: &mut String, level: usize, names: &Vec<Binding>)
    ensures
        final(out)@ == old(out)@ + name_cells(level as nat, level_view(names@), names@.len()),
{
    let mut k: usize = 0;
    assert(out@ =~= old(out)@ + name_cells(level as nat, level_view(names@), 0));
    while k < names.len()
        invariant
            k <= names@.len(),
            out@ == old(out)@ + name_cells(level as nat, level_view(names@), k as nat),
        decreases names.len() - k,
    {
        let ghost before = out@;
        out.append("<TD PORT=\"");
        push_scope_name(out, level);
        out.append("_");
        out.append(names[k].name.as_str());
        out.append("\">");
        out.append(names[k].name.as_str());
        out.append("</TD>");
        assert(out@ =~= before + name_cell(level as nat, names@[k as int].name@));
        k += 1;
        assert(out@ =~= old(out)@ + name_cells(level as nat, level_view(names@), k as nat));
    }
}

fn push_level_table(out: &mut String, level: usize, names: &Vec<Binding>)
    ensures
        final(out)@ == old(out)@ + level_table(level as nat, level_view(names@)),
{
    out.append("\tsubgraph cluster_");
    push_scope_name(out, level);
    out.append(" {\n\t\t");
    push_scope_name(out, level);
    out.append(
        " [label=<\n\t\t\t<TABLE BORDER=\"0\" CELLBORDER=\"1\" CELLSPACING=\"0\">\n\t\t\t<TR><TD BGCOLOR=\"cyan\">",
    );
    push_decimal(out, level as u64);
    out.append("</TD>");
    push_name_cells(out, level, names);
    out.append("</TR>\n\t\t\t</TABLE>>];\n");
    assert(out@ =~= old(out)@ + level_table(level as nat, level_view(names@)));
}

fn push_scope_section(out: &mut String, graph: &Graph)
    ensures
        final(out)@ == old(out)@ + scope_section(graph@),
{
    let scopes = match graph.get_node(SCOPE_NID) {
        Ok(node) => match &node.node_kind {
            NodeKind::Scope { scopes } => scopes,
            _ => {
                assert(out@ =~= old(out)@ + scope_section(graph@));
                return ;
            },
        },
        Err(_) => {
            assert(out@ =~= old(out)@ + scope_section(graph@));
            return ;
        },
    };
    let ghost stack = stack_view(scopes@);
    out.append("\tnode [shape=plaintext];\n");
    let ghost start = out@;
    let mut i: usize = 0;
    assert(out@ =~= start + level_tables(stack, 0));
    while i < scopes.len()
        invariant
            i <= scopes@.len(),
            stack == stack_view(scopes@),
            out@ == start + level_tables(stack, i as nat),
        decreases scopes.len() - i,
    {
        push_level_table(out, i, &scopes[i]);
        i += 1;
        assert(out@ =~= start + level_tables(stack, i as nat));
    }
    let ghost tables = out@;
    let mut c: usize = 0;
    assert(out@ =~= tables + closings(0));
    while c < scopes.len()
        invariant
            c <= scopes@.len(),
            out@ == tables + closings(c as nat),
        decreases scopes.len() - c,
    {
        out.append("\t}\n");
        c += 1;
        assert(out@ =~= tables + closings(c as nat));
    }
    assert(out@ =~= old(out)@ + scope_section(graph@));
}

fn push_edge_line(out: &mut String, graph: &Graph, node: &Node, k: usize)
    requires
        k < node.inputs@.len(),
    ensures
        final(out)@ == old(out)@ + edge_line(graph@, *node, k as int),
{
    let def_nid = node.inputs[k];
    match graph.get_node(def_nid) {
        Ok(def) => {
            out.append("\t");
            push_node_name(out, node.nid);
            out.append(" -> ");
            push_node_name(out, def_nid);
            out.append("[taillabel=");
            push_decimal(out, k as u64);
            if matches!(node.node_kind, NodeKind::Constant) && matches!(
                def.node_kind,
                NodeKind::Start
            ) {
                out.append(" style=dotted");
            } else if def.node_kind.is_cfg() {
                out.append(" color=red");
            }
            out.append("];\n");
            assert(out@ =~= old(out)@ + edge_line(graph@, *node, k as int));
        },
        Err(_) => {
            assert(out@ =~= old(out)@ + edge_line(graph@, *node, k as int));
        },
    }
}

fn push_edges_of(out: &mut String, graph: &Graph, node: &Node)
    ensures
        final(out)@ == old(out)@ + edges_of(graph@, *node, node.inputs@.len()),
{
    let mut k: usize = 0;
    assert(out@ =~= old(out)@ + edges_of(graph@, *node, 0));
    while k < node.inputs.len()
        invariant
            k <= node.inputs@.len(),
            out@ == old(out)@ + edges_of(graph@, *node, k as nat),
        decreases node.inputs.len() - k,
    {
        push_edge_line(out, graph, node, k);
        k += 1;
        assert(out@ =~= old(out)@ + edges_of(graph@, *node, k as nat));
    }
}

fn push_edge_lines(out: &mut String, graph: &Graph)
    ensures
        final(out)@ == old(out)@ + edge_lines(graph@, graph@.len()),
{
    let len = graph.len();
    let mut i: usize = 0;
    assert(out@ =~= old(out)@ + edge_lines(graph@, 0));
    while i < len
        invariant
            i <= len,
            len == graph@.len(),
            out@ == old(out)@ + edge_lines(graph@, i as nat),
        decreases len - i,
    {
        match graph.get_node(i) {
            Ok(node) => {
                if !matches!(node.node_kind, NodeKind::KeepAlive | NodeKind::Scope { .. }) {
                    push_edges_of(out, graph, node);
                }
            },
            Err(_) => {},
        }
        i += 1;
        assert(out@ =~= old(out)@ + edge_lines(graph@, i as nat));
    }
}

fn push_binding_lines(out: &mut String, level: usize, names: &Vec<Binding>)
    ensures
        final(out)@ == old(out)@ + binding_lines(level as nat, level_view(names@), names@.len()),
{
    let mut k: usize = 0;
    assert(out@ =~= old(out)@ + binding_lines(level as nat, level_view(names@), 0));
    while k < names.len()
        invariant
            k <= names@.len(),
            out@ == old(out)@ + binding_lines(level as nat, level_view(names@), k as nat),
        decreases names.len() - k,
    {
        let ghost before = out@;
        out.append("\t");
        push_scope_name(out, level);
        out.append(":\"");
        push_scope_name(out, level);
        out.append("_");
        out.append(names[k].name.as_str());
        out.append("\"");
        out.append(" -> ");
        push_node_name(out, names[k].nid);
        out.append(";\n");
        assert(out@ =~= before + binding_line(
            level as nat,
            names@[k as int].name@,
            names@[k as int].nid,
        ));
        k += 1;
        assert(out@ =~= old(out)@ + binding_lines(level as nat, level_view(names@), k as nat));
    }
}

fn push_scope_edges(out: &mut String, graph: &Graph)
    ensures
        final(out)@ == old(out)@ + scope_edges(graph@),
{
    let scopes = match graph.get_node(SCOPE_NID) {
        Ok(node) => match &node.node_kind {
            NodeKind::Scope { scopes } => scopes,
            _ => {
                assert(out@ =~= old(out)@ + scope_edges(graph@));
                return ;
            },
        },
        Err(_) => {
            assert(out@ =~= old(out)@ + scope_edges(graph@));
            return ;
        },
    };
    let ghost stack = stack_view(scopes@);
    let mut i: usize = 0;
    assert(out@ =~= old(out)@ + scope_lines(stack, 0));
    while i < scopes.len()
        invariant
            i <= scopes@.len(),
            stack == stack_view(scopes@),
            out@ == old(out)@ + scope_lines(stack, i as nat),
        decreases scopes.len() - i,
    {
        push_binding_lines(out, i, &scopes[i]);
        i += 1;
        assert(out@ =~= old(out)@ + scope_lines(stack, i as nat));
    }
}

/// Draws the graph of `parser` in the language of Graphviz.
pub fn as_dotfile(parser: &Parser) -> (r: String)
    ensures
        r@ == dot_text(parser.lexer.text(), parser.graph@),
{
    let mut sb = String::new();
    sb.append("digraph mygraph{\n");
    sb.append("/*\n");
    let src = parser.src();
    sb.append(src.as_str());
    sb.append("\n*/\n");
    sb.append("\trankdir=BT;\n");
    sb.append("\tordering=\"in\";\n");
    sb.append("\tconcentrate=\"true\";\n");
    sb.append("\tsubgraph cluster_Nodes {\n");
    push_node_lines(&mut sb, &parser.graph);
    sb.append("\t}\n");
    push_scope_section(&mut sb, &parser.graph);
    sb.append("\tedge [ fontname=Helvetica, fontsize=8 ];\n");
    push_edge_lines(&mut sb, &parser.graph);
    sb.append("\tedge [style=dashed color=cornflowerblue];\n");
    push_scope_edges(&mut sb, &parser.graph);
    sb.append("}\n");
    assert(sb@ =~= dot_text(parser.lexer.text(), parser.graph@));
    sb
}

} // verus!
