use crate::errors::son_error::SoNError;
use crate::nodes::graph::{
    Graph, count, edge_added, edge_removed, in_mult, inserted, lemma_count_push, live, out_mult,
    without,
};
use crate::nodes::node::{Binding, Node, NodeKind};
use crate::services::builder::{lemma_retained, lemma_retained_transitive, retained};
use crate::services::links::{
    lemma_linked_added, lemma_linked_removed, lemma_linked_replaced, well_linked,
};
use crate::services::parser::{KEEP_ALIVE_NID, Parser, SCOPE_NID, START_NID};
use crate::services::text::chars_of;
use vstd::prelude::*;
use vstd::string::*;

verus! {

/// A scope level as plain values: names with the slots bound to them.
pub open spec fn level_view(level: Seq<Binding>) -> Seq<(Seq<char>, usize)> {
    Seq::new(level.len(), |i: int| (level[i].name@, level[i].nid))
}

/// A scope stack as plain values, outermost level first.
pub open spec fn stack_view(scopes: Seq<Vec<Binding>>) -> Seq<Seq<(Seq<char>, usize)>> {
    Seq::new(scopes.len(), |i: int| level_view(scopes[i]@))
}

/// The scope stack that the arena carries in its scope node, or `None` where
/// that slot holds no scope node.
pub open spec fn scope_stack(g: Seq<Option<Node>>) -> Option<Seq<Seq<(Seq<char>, usize)>>> {
    if live(g, SCOPE_NID) {
        match g[SCOPE_NID as int]->0.node_kind {
            NodeKind::Scope { scopes } => Some(stack_view(scopes@)),
            _ => None,
        }
    } else {
        None
    }
}

/// The names that a scope level binds.
pub open spec fn level_names(level: Seq<(Seq<char>, usize)>) -> Set<Seq<char>> {
    Set::new(|name: Seq<char>| find_name(level, name, 0) >= 0)
}

/// The names that the scope levels of the arena bind, outermost level first;
/// no level where the arena has no scope node.
pub open spec fn names(g: Seq<Option<Node>>) -> Seq<Set<Seq<char>>> {
    match scope_stack(g) {
        Some(stack) => Seq::new(stack.len(), |l: int| level_names(stack[l])),
        None => Seq::empty(),
    }
}

/// A name is looked up with success if and only if some of the levels
/// looked at binds it.
pub proof fn lemma_lookup_declared(stack: Seq<Seq<(Seq<char>, usize)>>, name: Seq<char>, n: nat)
    requires
        n <= stack.len(),
    ensures
        lookup(stack, name, n) is Some <==> exists|l: int|
            0 <= l < n && #[trigger] level_names(stack[l]).contains(name),
    decreases n,
{
    if n > 0 {
        lemma_lookup_declared(stack, name, (n - 1) as nat);
        if find_name(stack[n - 1], name, 0) >= 0 {
            assert(level_names(stack[n - 1]).contains(name));
        } else {
            if exists|l: int| 0 <= l < n && #[trigger] level_names(stack[l]).contains(name) {
                let l = choose|l: int| 0 <= l < n
                    && #[trigger] level_names(stack[l]).contains(name);
                assert(l < n - 1);
            }
        }
    }
}

/// The arena holds the keep-alive node and a scope node that it pins, whose
/// levels are in ascending order.
pub open spec fn anchored(g: Seq<Option<Node>>) -> bool {
    &&& live(g, KEEP_ALIVE_NID)
    &&& scope_stack(g) is Some
    &&& out_mult(g, SCOPE_NID, KEEP_ALIVE_NID) > 0
    &&& all_ascending(scope_stack(g)->0)
}

/// If `old` is anchored, then `new` is, has its scope node pinned as often,
/// and binds the names `declared`.
pub open spec fn scope_moved(
    old: Seq<Option<Node>>,
    new: Seq<Option<Node>>,
    declared: Seq<Set<Seq<char>>>,
) -> bool {
    anchored(old) ==> anchored(new) && names(new) == declared && out_mult(
        new,
        SCOPE_NID,
        KEEP_ALIVE_NID,
    ) == out_mult(old, SCOPE_NID, KEEP_ALIVE_NID)
}

/// An edge from the scope node to a node, added or removed, neither drops
/// the keep-alive node nor moves a pin of the scope node.
pub proof fn lemma_scope_edge(old: Seq<Option<Node>>, new: Seq<Option<Node>>, x: usize)
    requires
        live(old, SCOPE_NID),
        live(old, x),
        edge_added(old, new, SCOPE_NID, x) || edge_removed(old, new, SCOPE_NID, x),
    ensures
        live(old, KEEP_ALIVE_NID) ==> live(new, KEEP_ALIVE_NID),
        out_mult(new, SCOPE_NID, KEEP_ALIVE_NID) == out_mult(old, SCOPE_NID, KEEP_ALIVE_NID),
{
    lemma_count_push(old[SCOPE_NID as int]->0.outputs@, SCOPE_NID, KEEP_ALIVE_NID);
    crate::nodes::graph::lemma_count_remove_last(
        old[SCOPE_NID as int]->0.outputs@,
        SCOPE_NID,
        KEEP_ALIVE_NID,
    );
    if KEEP_ALIVE_NID != x && live(old, KEEP_ALIVE_NID) {
        assert(new[KEEP_ALIVE_NID as int] == old[KEEP_ALIVE_NID as int]);
    }
}

/// A name that a level did not bind is found, once bound, at the place where
/// it was put.
pub proof fn lemma_find_inserted(
    level: Seq<(Seq<char>, usize)>,
    p: int,
    name: Seq<char>,
    nid: usize,
    from: int,
)
    requires
        0 <= from <= p <= level.len(),
        find_name(level, name, 0) == -1,
    ensures
        find_name(level.insert(p, (name, nid)), name, from) == p,
    decreases p - from,
{
    let after = level.insert(p, (name, nid));
    lemma_find_name(level, name, 0);
    if from < p {
        assert(after[from] == level[from]);
        lemma_find_inserted(level, p, name, nid, from + 1);
    } else {
        assert(after[p] == (name, nid));
    }
}

/// A level with one more binding binds one more name.
pub proof fn lemma_names_insert(level: Seq<(Seq<char>, usize)>, p: int, name: Seq<char>, nid: usize)
    requires
        0 <= p <= level.len(),
    ensures
        level_names(level.insert(p, (name, nid))) == level_names(level).insert(name),
{
    let after = level.insert(p, (name, nid));
    assert forall|n: Seq<char>| level_names(after).contains(n) <==> level_names(level).insert(
        name,
    ).contains(n) by {
        lemma_find_name(after, n, 0);
        lemma_find_name(level, n, 0);
        if find_name(level, n, 0) >= 0 {
            let i = find_name(level, n, 0);
            if i < p {
                assert(after[i] == level[i]);
            } else {
                assert(after[i + 1] == level[i]);
            }
        }
        if n == name {
            assert(after[p].0 == n);
        }
        if find_name(after, n, 0) >= 0 && n != name {
            let i = find_name(after, n, 0);
            if i < p {
                assert(after[i] == level[i]);
            } else {
                assert(i > p);
                assert(after[i] == level[i - 1]);
            }
        }
    }
    assert(level_names(after) =~= level_names(level).insert(name));
}

/// A level in ascending order that loses a binding binds one name less.
pub proof fn lemma_names_remove(level: Seq<(Seq<char>, usize)>, i: int)
    requires
        ascending(level),
        0 <= i < level.len(),
    ensures
        level_names(level.remove(i)) == level_names(level).remove(level[i].0),
        find_name(level.remove(i), level[i].0, 0) == -1,
{
    let after = level.remove(i);
    assert forall|n: Seq<char>| level_names(after).contains(n) <==> level_names(level).remove(
        level[i].0,
    ).contains(n) by {
        lemma_find_name(after, n, 0);
        lemma_find_name(level, n, 0);
        if find_name(after, n, 0) >= 0 {
            let k = find_name(after, n, 0);
            let j = if k < i {
                k
            } else {
                k + 1
            };
            assert(after[k] == level[j]);
            if n == level[i].0 {
                lemma_ascending_unique(level, i, j);
            }
        }
        if find_name(level, n, 0) >= 0 && n != level[i].0 {
            let j = find_name(level, n, 0);
            let k = if j < i {
                j
            } else {
                j - 1
            };
            assert(after[k] == level[j]);
        }
    }
    assert(level_names(after) =~= level_names(level).remove(level[i].0));
    lemma_find_name(after, level[i].0, 0);
    if find_name(after, level[i].0, 0) >= 0 {
        let k = find_name(after, level[i].0, 0);
        let j = if k < i {
            k
        } else {
            k + 1
        };
        assert(after[k] == level[j]);
        lemma_ascending_unique(level, i, j);
    }
}


/// The node in slot `x` is a constant: a node of that kind without inputs,
/// not in the slot of the keep-alive node.
pub open spec fn constant_node(g: Seq<Option<Node>>, x: usize) -> bool {
    x != KEEP_ALIVE_NID && live(g, x) && g[x as int]->0.node_kind is Constant
        && g[x as int]->0.inputs@.len() == 0
}

/// What was pinned in `old` is pinned in `new` at least as often, has the
/// type it had and as many inputs, unless it is the scope node, and is a
/// constant if it was one; and the keep-alive node is still there.
pub open spec fn pins_held(old: Seq<Option<Node>>, new: Seq<Option<Node>>) -> bool {
    &&& live(old, KEEP_ALIVE_NID) ==> live(new, KEEP_ALIVE_NID)
    &&& forall|x: usize|
        #![trigger out_mult(new, x, KEEP_ALIVE_NID)]
        #![trigger new[x as int]]
        out_mult(old, x, KEEP_ALIVE_NID) > 0 ==> out_mult(new, x, KEEP_ALIVE_NID) >= out_mult(
            old,
            x,
            KEEP_ALIVE_NID,
        ) && new[x as int]->0.typ@ == old[x as int]->0.typ@ && (constant_node(old, x)
            ==> constant_node(new, x)) && (x != KEEP_ALIVE_NID && x != SCOPE_NID
            ==> new[x as int]->0.inputs@.len() == old[x as int]->0.inputs@.len())
}

/// The node `y` is pinned once more in `new` than in `old`, or once less if
/// `up` is not set and it was pinned at all; every other node is pinned as
/// before, every node has the type it had, and the keep-alive node has the
/// node among its inputs once more, or once less, and every other node as
/// often as before.
pub open spec fn pin_moved(
    old: Seq<Option<Node>>,
    new: Seq<Option<Node>>,
    y: usize,
    up: bool,
) -> bool {
    &&& forall|x: usize|
        #![trigger out_mult(new, x, KEEP_ALIVE_NID)]
        #![trigger new[x as int]]
        live(old, x) ==> new[x as int] is Some && new[x as int]->0.typ@ == old[x as int]->0.typ@
            && (constant_node(old, x) ==> constant_node(new, x)) && (x != KEEP_ALIVE_NID
            ==> new[x as int]->0.inputs@.len() == old[x as int]->0.inputs@.len())
    &&& forall|x: usize|
        x != y ==> #[trigger] out_mult(new, x, KEEP_ALIVE_NID) == out_mult(old, x, KEEP_ALIVE_NID)
    &&& forall|x: usize| #[trigger]
        in_mult(new, KEEP_ALIVE_NID, x) == in_mult(old, KEEP_ALIVE_NID, x) + if x != y {
            0int
        } else if up {
            1int
        } else if in_mult(old, KEEP_ALIVE_NID, y) > 0 {
            -1int
        } else {
            0int
        }
    &&& if up {
        out_mult(new, y, KEEP_ALIVE_NID) == out_mult(old, y, KEEP_ALIVE_NID) + 1
    } else {
        out_mult(new, y, KEEP_ALIVE_NID) + 1 >= out_mult(old, y, KEEP_ALIVE_NID)
    }
}

/// An edge between the keep-alive node and `y`, added or removed, moves one
/// pin of `y` and no other.
pub proof fn lemma_pin_moved(old: Seq<Option<Node>>, new: Seq<Option<Node>>, y: usize, up: bool)
    requires
        live(old, KEEP_ALIVE_NID),
        live(old, y),
        if up {
            edge_added(old, new, KEEP_ALIVE_NID, y)
        } else {
            edge_removed(old, new, KEEP_ALIVE_NID, y)
        },
    ensures
        pin_moved(old, new, y, up),
{
    lemma_count_push(old[y as int]->0.outputs@, KEEP_ALIVE_NID, KEEP_ALIVE_NID);
    crate::nodes::graph::lemma_count_remove_last(
        old[y as int]->0.outputs@,
        KEEP_ALIVE_NID,
        KEEP_ALIVE_NID,
    );
    assert forall|x: usize| x != y implies #[trigger] out_mult(new, x, KEEP_ALIVE_NID) == out_mult(
        old,
        x,
        KEEP_ALIVE_NID,
    ) by {
        if x < old.len() && x != KEEP_ALIVE_NID {
            assert(new[x as int] == old[x as int]);
        }
    }
    assert forall|x: usize| #[trigger]
        in_mult(new, KEEP_ALIVE_NID, x) == in_mult(old, KEEP_ALIVE_NID, x) + if x != y {
            0int
        } else if up {
            1int
        } else if in_mult(old, KEEP_ALIVE_NID, y) > 0 {
            -1int
        } else {
            0int
        } by {
        lemma_count_push(old[KEEP_ALIVE_NID as int]->0.inputs@, y, x);
        crate::nodes::graph::lemma_count_remove_last(old[KEEP_ALIVE_NID as int]->0.inputs@, y, x);
    }
    assert forall|x: usize| live(old, x) implies new[x as int] is Some && new[x as int]->0.typ@
        == old[x as int]->0.typ@ && (constant_node(old, x) ==> constant_node(new, x)) && (x
        != KEEP_ALIVE_NID ==> new[x as int]->0.inputs@.len() == old[x as int]->0.inputs@.len()) by {
        if x != y && x != KEEP_ALIVE_NID {
            assert(new[x as int] == old[x as int]);
        }
    }
}

/// An edge from the scope node to a node, added or removed, moves no pin.
pub proof fn lemma_scope_edge_pins(old: Seq<Option<Node>>, new: Seq<Option<Node>>, y: usize)
    requires
        live(old, SCOPE_NID),
        live(old, y),
        edge_added(old, new, SCOPE_NID, y) || edge_removed(old, new, SCOPE_NID, y),
    ensures
        live(old, KEEP_ALIVE_NID) ==> live(new, KEEP_ALIVE_NID),
        forall|x: usize| #[trigger] out_mult(new, x, KEEP_ALIVE_NID)
            == out_mult(old, x, KEEP_ALIVE_NID),
{
    assert forall|x: usize| #[trigger] out_mult(new, x, KEEP_ALIVE_NID) == out_mult(
        old,
        x,
        KEEP_ALIVE_NID,
    ) by {
        if x < old.len() {
            lemma_count_push(old[x as int]->0.outputs@, SCOPE_NID, KEEP_ALIVE_NID);
            crate::nodes::graph::lemma_count_remove_last(
                old[x as int]->0.outputs@,
                SCOPE_NID,
                KEEP_ALIVE_NID,
            );
            if x != SCOPE_NID && x != y {
                assert(new[x as int] == old[x as int]);
            }
        }
    }
    if KEEP_ALIVE_NID != y && live(old, KEEP_ALIVE_NID) {
        assert(new[KEEP_ALIVE_NID as int] == old[KEEP_ALIVE_NID as int]);
    }
}

/// Every node that the scope node observed in `old` is there in `new` with
/// the type it had, a constant if it was one, and the scope node observes it
/// as often as before.
pub open spec fn bonds_kept(old: Seq<Option<Node>>, new: Seq<Option<Node>>) -> bool {
    forall|x: usize|
        #![trigger out_mult(new, x, SCOPE_NID)]
        #![trigger new[x as int]]
        out_mult(old, x, SCOPE_NID) > 0 ==> out_mult(new, x, SCOPE_NID) == out_mult(
            old,
            x,
            SCOPE_NID,
        ) && new[x as int]->0.typ@ == old[x as int]->0.typ@ && (constant_node(old, x)
            ==> constant_node(new, x))
}

/// If `old` is anchored, then `new` holds the keep-alive node, the same scope
/// stack, the scope node pinned as often as before and with the inputs it
/// had, the nodes that the scope node observed, and the keep-alive node with
/// every input as often as before.
pub open spec fn scope_kept(old: Seq<Option<Node>>, new: Seq<Option<Node>>) -> bool {
    anchored(old) ==> live(new, KEEP_ALIVE_NID) && scope_stack(new) == scope_stack(old)
        && out_mult(new, SCOPE_NID, KEEP_ALIVE_NID) == out_mult(old, SCOPE_NID, KEEP_ALIVE_NID)
        && bonds_kept(old, new) && new[SCOPE_NID as int]->0.inputs@
        == old[SCOPE_NID as int]->0.inputs@ && anchor_kept(old, new)
}

/// The keep-alive node has every node among its inputs as often as before.
pub open spec fn anchor_kept(old: Seq<Option<Node>>, new: Seq<Option<Node>>) -> bool {
    forall|x: usize| #[trigger]
        in_mult(new, KEEP_ALIVE_NID, x) == in_mult(old, KEEP_ALIVE_NID, x)
}

/// How many bindings of the stack bind the node `x`.
pub open spec fn bound_count(stack: Seq<Seq<(Seq<char>, usize)>>, x: usize) -> nat
    decreases stack.len(),
{
    if stack.len() == 0 {
        0
    } else {
        bound_count(stack.drop_last(), x) + count(bound_slots(stack.last()), x)
    }
}

/// The arena is anchored, the start node is pinned, and the scope node
/// observes every node at least as often as the scope stack binds it: what
/// is bound is there.
pub open spec fn tidy(g: Seq<Option<Node>>) -> bool {
    &&& anchored(g)
    &&& out_mult(g, START_NID, KEEP_ALIVE_NID) > 0
    &&& forall|x: usize| #[trigger] bound_count(scope_stack(g)->0, x) <= out_mult(g, x, SCOPE_NID)
}

/// In a tidy arena the node that a name is bound to is there.
pub proof fn lemma_found_live(g: Seq<Option<Node>>, name: Seq<char>)
    requires
        tidy(g),
        lookup(scope_stack(g)->0, name, scope_stack(g)->0.len()) is Some,
    ensures
        live(g, lookup(scope_stack(g)->0, name, scope_stack(g)->0.len())->0),
{
    let stack = scope_stack(g)->0;
    let x = lookup(stack, name, stack.len())->0;
    lemma_lookup_bound(stack, name, stack.len());
    assert(bound_count(stack, x) <= out_mult(g, x, SCOPE_NID));
}

/// In a tidy arena the nodes that the innermost scope level binds are there.
pub proof fn lemma_top_live(g: Seq<Option<Node>>)
    requires
        tidy(g),
        scope_stack(g)->0.len() > 0,
    ensures
        forall|i: int|
            0 <= i < scope_stack(g)->0.last().len() ==> live(
                g,
                #[trigger] scope_stack(g)->0.last()[i].1,
            ),
{
    let stack = scope_stack(g)->0;
    assert forall|i: int| 0 <= i < stack.last().len() implies live(
        g,
        #[trigger] stack.last()[i].1,
    ) by {
        let x = stack.last()[i].1;
        lemma_slot_counted(stack.last(), i);
        assert(bound_count(stack, x) <= out_mult(g, x, SCOPE_NID));
    }
}

/// An edge from the scope node to the node `nid`, added or removed, lets the
/// scope node observe `nid` once more, or once less, and every other node as
/// often as before.
pub proof fn lemma_bond_moved(old: Seq<Option<Node>>, new: Seq<Option<Node>>, nid: usize, up: bool)
    requires
        live(old, SCOPE_NID),
        live(old, nid),
        if up {
            edge_added(old, new, SCOPE_NID, nid)
        } else {
            edge_removed(old, new, SCOPE_NID, nid)
        },
    ensures
        forall|x: usize|
            x != nid ==> #[trigger] out_mult(new, x, SCOPE_NID) == out_mult(old, x, SCOPE_NID),
        up ==> out_mult(new, nid, SCOPE_NID) == out_mult(old, nid, SCOPE_NID) + 1,
        !up && out_mult(old, nid, SCOPE_NID) > 0 ==> out_mult(new, nid, SCOPE_NID) + 1 == out_mult(
            old,
            nid,
            SCOPE_NID,
        ),
{
    lemma_count_push(old[nid as int]->0.outputs@, SCOPE_NID, SCOPE_NID);
    crate::nodes::graph::lemma_count_remove_last(old[nid as int]->0.outputs@, SCOPE_NID, SCOPE_NID);
    assert forall|x: usize| x != nid implies #[trigger] out_mult(new, x, SCOPE_NID) == out_mult(
        old,
        x,
        SCOPE_NID,
    ) by {
        if x < old.len() && x != SCOPE_NID {
            assert(new[x as int] == old[x as int]);
        }
    }
}

/// A new scope stack in the scope node leaves every observer where it was.
pub proof fn lemma_bonds_replaced(
    old: Seq<Option<Node>>,
    new: Seq<Option<Node>>,
    stack: Seq<Seq<(Seq<char>, usize)>>,
)
    requires
        stack_replaced(old, new, stack),
    ensures
        forall|x: usize, y: usize| #[trigger] out_mult(new, x, y) == out_mult(old, x, y),
{
    assert forall|x: usize, y: usize| #[trigger] out_mult(new, x, y) == out_mult(old, x, y) by {
        if x < old.len() && x != SCOPE_NID {
            assert(new[x as int] == old[x as int]);
        }
    }
}

/// A list with one more element holds that element once more.
pub proof fn lemma_count_insert(s: Seq<usize>, p: int, y: usize, x: usize)
    requires
        0 <= p <= s.len(),
    ensures
        count(s.insert(p, y), x) == count(s, x) + if y == x {
            1nat
        } else {
            0nat
        },
    decreases s.len(),
{
    if p == s.len() {
        assert(s.insert(p, y) =~= s.push(y));
        lemma_count_push(s, y, x);
    } else {
        lemma_count_insert(s.drop_last(), p, y, x);
        assert(s.insert(p, y).drop_last() =~= s.drop_last().insert(p, y));
        assert(s.insert(p, y).last() == s.last());
    }
}

/// A list holds a value as often as its first element and the rest together.
pub proof fn lemma_count_first(s: Seq<usize>, x: usize)
    requires
        s.len() > 0,
    ensures
        count(s, x) == count(s.drop_first(), x) + if s[0] == x {
            1nat
        } else {
            0nat
        },
    decreases s.len(),
{
    if s.len() == 1 {
        assert(s.drop_last() =~= Seq::<usize>::empty());
        assert(s.drop_first() =~= Seq::<usize>::empty());
    } else {
        lemma_count_first(s.drop_last(), x);
        assert(s.drop_first().drop_last() =~= s.drop_last().drop_first());
        assert(s.drop_first().last() == s.last());
    }
}

/// What a lookup finds is bound.
pub proof fn lemma_lookup_bound(stack: Seq<Seq<(Seq<char>, usize)>>, name: Seq<char>, n: nat)
    requires
        n <= stack.len(),
        lookup(stack, name, n) is Some,
    ensures
        bound_count(stack, lookup(stack, name, n)->0) > 0,
    decreases stack.len(),
{
    let x = lookup(stack, name, n)->0;
    if n == stack.len() {
        let i = find_name(stack[n - 1], name, 0);
        if i >= 0 {
            lemma_find_name(stack[n - 1], name, 0);
            lemma_slot_counted(stack.last(), i);
        } else {
            lemma_lookup_prefix(stack, name, (n - 1) as nat);
            lemma_lookup_bound(stack.drop_last(), name, (n - 1) as nat);
        }
    } else {
        lemma_lookup_prefix(stack, name, n);
        lemma_lookup_bound(stack.drop_last(), name, n);
    }
}

/// A lookup in the first levels of a stack does not depend on the last one.
pub proof fn lemma_lookup_prefix(stack: Seq<Seq<(Seq<char>, usize)>>, name: Seq<char>, n: nat)
    requires
        n < stack.len(),
    ensures
        lookup(stack.drop_last(), name, n) == lookup(stack, name, n),
    decreases n,
{
    if n > 0 {
        lemma_lookup_prefix(stack, name, (n - 1) as nat);
        assert(stack.drop_last()[n - 1] == stack[n - 1]);
    }
}

/// The slot of a binding of a level is among the slots that the level binds.
pub proof fn lemma_slot_counted(level: Seq<(Seq<char>, usize)>, i: int)
    requires
        0 <= i < level.len(),
    ensures
        count(bound_slots(level), level[i].1) > 0,
{
    let slots = bound_slots(level);
    crate::nodes::graph::lemma_last_index_of(slots, level[i].1);
    assert(slots[i] == level[i].1);
}


/// `new` has the keep-alive node and the scope stack of `old`, and its scope
/// node is pinned once more, or once less, if `x` is the scope node.
pub open spec fn pins_moved(
    old: Seq<Option<Node>>,
    new: Seq<Option<Node>>,
    x: usize,
    up: bool,
) -> bool {
    &&& live(new, KEEP_ALIVE_NID)
    &&& scope_stack(new) == scope_stack(old)
    &&& bonds_kept(old, new)
    &&& if x != SCOPE_NID {
        out_mult(new, SCOPE_NID, KEEP_ALIVE_NID) == out_mult(old, SCOPE_NID, KEEP_ALIVE_NID)
    } else if up {
        out_mult(new, SCOPE_NID, KEEP_ALIVE_NID) == out_mult(old, SCOPE_NID, KEEP_ALIVE_NID) + 1
    } else {
        out_mult(new, SCOPE_NID, KEEP_ALIVE_NID) + 1 == out_mult(old, SCOPE_NID, KEEP_ALIVE_NID)
            || out_mult(old, SCOPE_NID, KEEP_ALIVE_NID) == 0
    }
}

/// Pinning a node leaves the scope stack alone; it pins the scope node once
/// more if that is the node.
pub proof fn lemma_scope_pinned(old: Seq<Option<Node>>, new: Seq<Option<Node>>, x: usize)
    requires
        live(old, KEEP_ALIVE_NID),
        live(old, x),
        edge_added(old, new, KEEP_ALIVE_NID, x),
    ensures
        pins_moved(old, new, x, true),
{
    assert forall|y: usize| out_mult(old, y, SCOPE_NID) > 0 implies #[trigger] out_mult(
        new,
        y,
        SCOPE_NID,
    ) == out_mult(old, y, SCOPE_NID) by {
        lemma_count_push(old[y as int]->0.outputs@, KEEP_ALIVE_NID, SCOPE_NID);
        if y != x && y != KEEP_ALIVE_NID {
            assert(new[y as int] == old[y as int]);
        }
    }
    if live(old, SCOPE_NID) {
        lemma_count_push(old[SCOPE_NID as int]->0.outputs@, KEEP_ALIVE_NID, KEEP_ALIVE_NID);
        if x != SCOPE_NID {
            assert(new[SCOPE_NID as int] == old[SCOPE_NID as int]);
        }
    } else if SCOPE_NID < old.len() {
        assert(new[SCOPE_NID as int] == old[SCOPE_NID as int]);
    }
}

/// Releasing a pin leaves the scope stack alone; it releases one pin of the
/// scope node if that is the node.
pub proof fn lemma_scope_released(old: Seq<Option<Node>>, new: Seq<Option<Node>>, x: usize)
    requires
        live(old, KEEP_ALIVE_NID),
        live(old, x),
        edge_removed(old, new, KEEP_ALIVE_NID, x),
    ensures
        pins_moved(old, new, x, false),
{
    assert forall|y: usize| out_mult(old, y, SCOPE_NID) > 0 implies #[trigger] out_mult(
        new,
        y,
        SCOPE_NID,
    ) == out_mult(old, y, SCOPE_NID) by {
        crate::nodes::graph::lemma_count_remove_last(
            old[y as int]->0.outputs@,
            KEEP_ALIVE_NID,
            SCOPE_NID,
        );
        if y != x && y != KEEP_ALIVE_NID {
            assert(new[y as int] == old[y as int]);
        }
    }
    if live(old, SCOPE_NID) {
        crate::nodes::graph::lemma_count_remove_last(
            old[SCOPE_NID as int]->0.outputs@,
            KEEP_ALIVE_NID,
            KEEP_ALIVE_NID,
        );
        if x != SCOPE_NID {
            assert(new[SCOPE_NID as int] == old[SCOPE_NID as int]);
        }
    } else if SCOPE_NID < old.len() {
        assert(new[SCOPE_NID as int] == old[SCOPE_NID as int]);
    }
}

/// `new` is `old` but for the scope node, which now carries `stack` and is
/// otherwise as it was.
pub open spec fn stack_replaced(
    old: Seq<Option<Node>>,
    new: Seq<Option<Node>>,
    stack: Seq<Seq<(Seq<char>, usize)>>,
) -> bool {
    &&& new.len() == old.len()
    &&& forall|j: usize|
        j < old.len() && j != SCOPE_NID ==> #[trigger] new[j as int] == old[j as int]
    &&& live(old, SCOPE_NID)
    &&& live(new, SCOPE_NID)
    &&& new[SCOPE_NID as int]->0.same_but_kind(&old[SCOPE_NID as int]->0)
    &&& scope_stack(new) == Some(stack)
}

/// `new` is `old` but for the scope node and for the places where it stands
/// in lists of observers: no slot is filled anew, every node is there with
/// the type it had, every
/// node but the scope node has its kind and its inputs, and every node lists
/// each observer other than the scope node as often as before.
pub open spec fn rebound(old: Seq<Option<Node>>, new: Seq<Option<Node>>) -> bool {
    &&& new.len() == old.len()
    &&& forall|x: usize| x < old.len() && old[x as int] is None ==> (#[trigger] new[x as int]) is None
    &&& forall|x: usize|
        live(old, x) ==> (#[trigger] new[x as int]) is Some && new[x as int]->0.typ@
            == old[x as int]->0.typ@
    &&& forall|x: usize|
        live(old, x) && x != SCOPE_NID ==> (#[trigger] new[x as int])->0.node_kind
            == old[x as int]->0.node_kind && new[x as int]->0.inputs@ == old[x as int]->0.inputs@
    &&& forall|x: usize, o: usize|
        o != SCOPE_NID ==> #[trigger] out_mult(new, x, o) == out_mult(old, x, o)
}

/// The scope node has every node among its inputs as often as before, apart
/// from what the change of the scope stack accounts for: each node as often
/// more, or less, as the stack binds it more often, or less.
pub open spec fn slack_kept(old: Seq<Option<Node>>, new: Seq<Option<Node>>) -> bool {
    scope_stack(old) is Some ==> scope_stack(new) is Some && forall|x: usize| #[trigger]
        in_mult(new, SCOPE_NID, x) - bound_count(scope_stack(new)->0, x) == in_mult(
            old,
            SCOPE_NID,
            x,
        ) - bound_count(scope_stack(old)->0, x)
}

/// The keep-alive node has its inputs as often as before, and so has the
/// scope node, apart from what the change of the scope stack accounts for.
pub open spec fn held_kept(old: Seq<Option<Node>>, new: Seq<Option<Node>>) -> bool {
    anchor_kept(old, new) && slack_kept(old, new)
}

/// What is held twice over is held.
pub proof fn lemma_held_twice(a: Seq<Option<Node>>, b: Seq<Option<Node>>, c: Seq<Option<Node>>)
    requires
        held_kept(a, b),
        held_kept(b, c),
    ensures
        held_kept(a, c),
{
    assert forall|x: usize| #[trigger]
        in_mult(c, KEEP_ALIVE_NID, x) == in_mult(a, KEEP_ALIVE_NID, x) by {
        assert(in_mult(b, KEEP_ALIVE_NID, x) == in_mult(a, KEEP_ALIVE_NID, x));
    }
    if scope_stack(a) is Some {
        assert forall|x: usize| #[trigger]
            in_mult(c, SCOPE_NID, x) - bound_count(scope_stack(c)->0, x) == in_mult(
                a,
                SCOPE_NID,
                x,
            ) - bound_count(scope_stack(a)->0, x) by {
            assert(in_mult(b, SCOPE_NID, x) - bound_count(scope_stack(b)->0, x) == in_mult(
                a,
                SCOPE_NID,
                x,
            ) - bound_count(scope_stack(a)->0, x));
        }
    }
}

/// What keeps the scope keeps what is held.
pub proof fn lemma_held_scope_kept(old: Seq<Option<Node>>, new: Seq<Option<Node>>)
    requires
        anchored(old),
        scope_kept(old, new),
    ensures
        held_kept(old, new),
{
    assert forall|x: usize| #[trigger]
        in_mult(new, SCOPE_NID, x) - bound_count(scope_stack(new)->0, x) == in_mult(
            old,
            SCOPE_NID,
            x,
        ) - bound_count(scope_stack(old)->0, x) by {
        let cell = new[SCOPE_NID as int];
    }
}

/// An arena that is rebound keeps the inputs of the keep-alive node.
pub proof fn lemma_rebound_anchor(old: Seq<Option<Node>>, new: Seq<Option<Node>>)
    requires
        rebound(old, new),
    ensures
        anchor_kept(old, new),
{
    assert forall|x: usize| #[trigger]
        in_mult(new, KEEP_ALIVE_NID, x) == in_mult(old, KEEP_ALIVE_NID, x) by {
        let cell = new[KEEP_ALIVE_NID as int];
    }
}

/// An edge from the scope node to a node, added or removed, rebinds the arena.
pub proof fn lemma_rebound_edge(old: Seq<Option<Node>>, new: Seq<Option<Node>>, y: usize)
    requires
        live(old, SCOPE_NID),
        live(old, y),
        edge_added(old, new, SCOPE_NID, y) || edge_removed(old, new, SCOPE_NID, y),
    ensures
        rebound(old, new),
{
    assert forall|x: usize| live(old, x) implies (#[trigger] new[x as int]) is Some
        && new[x as int]->0.typ@ == old[x as int]->0.typ@ by {
        if x != SCOPE_NID && x != y {
            assert(new[x as int] == old[x as int]);
        }
    }
    assert forall|x: usize| live(old, x) && x != SCOPE_NID implies (
    #[trigger] new[x as int])->0.node_kind == old[x as int]->0.node_kind
        && new[x as int]->0.inputs@ == old[x as int]->0.inputs@ by {
        if x != y {
            assert(new[x as int] == old[x as int]);
        }
    }
    assert forall|x: usize, o: usize| o != SCOPE_NID implies #[trigger] out_mult(new, x, o)
        == out_mult(old, x, o) by {
        if x < old.len() {
            if x == y {
                lemma_count_push(old[x as int]->0.outputs@, SCOPE_NID, o);
                crate::nodes::graph::lemma_count_remove_last(
                    old[x as int]->0.outputs@,
                    SCOPE_NID,
                    o,
                );
            } else if x != SCOPE_NID {
                assert(new[x as int] == old[x as int]);
            }
        }
    }
}

/// A new scope stack in the scope node rebinds the arena.
pub proof fn lemma_rebound_stack(
    old: Seq<Option<Node>>,
    new: Seq<Option<Node>>,
    stack: Seq<Seq<(Seq<char>, usize)>>,
)
    requires
        stack_replaced(old, new, stack),
    ensures
        rebound(old, new),
{
    assert forall|x: usize| live(old, x) implies (#[trigger] new[x as int]) is Some
        && new[x as int]->0.typ@ == old[x as int]->0.typ@ by {
        if x != SCOPE_NID {
            assert(new[x as int] == old[x as int]);
        }
    }
    assert forall|x: usize| live(old, x) && x != SCOPE_NID implies (
    #[trigger] new[x as int])->0.node_kind == old[x as int]->0.node_kind
        && new[x as int]->0.inputs@ == old[x as int]->0.inputs@ by {
        assert(new[x as int] == old[x as int]);
    }
    assert forall|x: usize, o: usize| o != SCOPE_NID implies #[trigger] out_mult(new, x, o)
        == out_mult(old, x, o) by {
        if x < old.len() && x != SCOPE_NID {
            assert(new[x as int] == old[x as int]);
        }
    }
}

/// Rebinding twice is rebinding.
pub proof fn lemma_rebound_twice(
    a: Seq<Option<Node>>,
    b: Seq<Option<Node>>,
    c: Seq<Option<Node>>,
)
    requires
        rebound(a, b),
        rebound(b, c),
    ensures
        rebound(a, c),
{
    assert forall|x: usize| live(a, x) implies (#[trigger] c[x as int]) is Some
        && c[x as int]->0.typ@ == a[x as int]->0.typ@ by {
        let m = b[x as int];
    }
    assert forall|x: usize| x < a.len() && a[x as int] is None implies (#[trigger] c[x as int])
        is None by {
        let m = b[x as int];
    }
    assert forall|x: usize| live(a, x) && x != SCOPE_NID implies (
    #[trigger] c[x as int])->0.node_kind == a[x as int]->0.node_kind && c[x as int]->0.inputs@
        == a[x as int]->0.inputs@ by {
        let m = b[x as int];
    }
    assert forall|x: usize, o: usize| o != SCOPE_NID implies #[trigger] out_mult(c, x, o)
        == out_mult(a, x, o) by {
        assert(out_mult(b, x, o) == out_mult(a, x, o));
    }
}

/// `new` is `old` after the edges from `user` to each node of `defs` were
/// removed one after the other.
pub open spec fn edges_removed(
    old: Seq<Option<Node>>,
    new: Seq<Option<Node>>,
    user: usize,
    defs: Seq<usize>,
) -> bool
    decreases defs.len(),
{
    if defs.len() == 0 {
        new == old
    } else {
        exists|mid: Seq<Option<Node>>|
            edges_removed(old, mid, user, defs.drop_last()) && #[trigger] edge_removed(
                mid,
                new,
                user,
                defs.last(),
            )
    }
}

/// The slots that a scope level binds, in the order of its names.
pub open spec fn bound_slots(level: Seq<(Seq<char>, usize)>) -> Seq<usize> {
    Seq::new(level.len(), |i: int| level[i].1)
}

/// Index of the first binding of `name` at or after `from`, or -1.
pub open spec fn find_name(level: Seq<(Seq<char>, usize)>, name: Seq<char>, from: int) -> int
    decreases level.len() - from,
{
    if from < 0 || from >= level.len() {
        -1
    } else if level[from].0 == name {
        from
    } else {
        find_name(level, name, from + 1)
    }
}

/// The slot bound to `name` in the innermost of the first `n` levels that
/// binds it.
pub open spec fn lookup(stack: Seq<Seq<(Seq<char>, usize)>>, name: Seq<char>, n: nat) -> Option<
    usize,
>
    decreases n,
{
    if n == 0 || n > stack.len() {
        None
    } else {
        let i = find_name(stack[n - 1], name, 0);
        if i >= 0 {
            Some(stack[n - 1][i].1)
        } else {
            lookup(stack, name, (n - 1) as nat)
        }
    }
}

/// Lexicographic order of names by their characters.
pub open spec fn lex_lt(a: Seq<char>, b: Seq<char>) -> bool
    decreases a.len(),
{
    if b.len() == 0 {
        false
    } else if a.len() == 0 {
        true
    } else if a[0] != b[0] {
        a[0] < b[0]
    } else {
        lex_lt(a.drop_first(), b.drop_first())
    }
}

/// The binding that is found for a name is the first one that has it.
pub proof fn lemma_find_first(level: Seq<(Seq<char>, usize)>, name: Seq<char>, from: int)
    requires
        0 <= from <= level.len(),
    ensures
        find_name(level, name, from) >= 0 ==> forall|j: int|
            from <= j < find_name(level, name, from) ==> level[j].0 != name,
    decreases level.len() - from,
{
    if from < level.len() && level[from].0 != name {
        lemma_find_first(level, name, from + 1);
    }
}

/// The first binding that has a name is the one that is found for it.
pub proof fn lemma_find_is(level: Seq<(Seq<char>, usize)>, name: Seq<char>, from: int, k: int)
    requires
        0 <= from <= k < level.len(),
        level[k].0 == name,
        forall|j: int| from <= j < k ==> level[j].0 != name,
    ensures
        find_name(level, name, from) == k,
    decreases k - from,
{
    if from < k {
        lemma_find_is(level, name, from + 1, k);
    }
}

/// A binding that is put into a level, or taken out of it, leaves the slot
/// that is found for every other name.
pub proof fn lemma_find_other(
    level: Seq<(Seq<char>, usize)>,
    after: Seq<(Seq<char>, usize)>,
    at: int,
    name: Seq<char>,
    other: Seq<char>,
)
    requires
        other != name,
        (0 <= at <= level.len() && exists|nid: usize| after == level.insert(at, (name, nid))) || (0
            <= at < level.len() && level[at].0 == name && after == level.remove(at)),
    ensures
        find_name(after, other, 0) >= 0 <==> find_name(level, other, 0) >= 0,
        find_name(level, other, 0) >= 0 ==> after[find_name(after, other, 0)].1
            == level[find_name(level, other, 0)].1,
{
    lemma_find_name(level, other, 0);
    lemma_find_name(after, other, 0);
    lemma_find_first(level, other, 0);
    lemma_find_first(after, other, 0);
    let grown = after.len() > level.len();
    if find_name(level, other, 0) >= 0 {
        let k = find_name(level, other, 0);
        let k2 = if grown {
            if k < at {
                k
            } else {
                k + 1
            }
        } else {
            if k < at {
                k
            } else {
                k - 1
            }
        };
        assert(after[k2] == level[k]);
        assert forall|j: int| 0 <= j < k2 implies after[j].0 != other by {
            if grown {
                if j < at {
                    assert(after[j] == level[j]);
                } else if j > at {
                    assert(after[j] == level[j - 1]);
                }
            } else {
                if j < at {
                    assert(after[j] == level[j]);
                } else {
                    assert(after[j] == level[j + 1]);
                }
            }
        }
        lemma_find_is(after, other, 0, k2);
    } else if find_name(after, other, 0) >= 0 {
        let k2 = find_name(after, other, 0);
        if grown {
            if k2 < at {
                assert(after[k2] == level[k2]);
            } else if k2 > at {
                assert(after[k2] == level[k2 - 1]);
            }
        } else {
            if k2 < at {
                assert(after[k2] == level[k2]);
            } else {
                assert(after[k2] == level[k2 + 1]);
            }
        }
    }
}

/// What is looked up in the first `n` levels depends on these levels alone.
pub proof fn lemma_lookup_below(
    a: Seq<Seq<(Seq<char>, usize)>>,
    b: Seq<Seq<(Seq<char>, usize)>>,
    name: Seq<char>,
    n: nat,
)
    requires
        n <= a.len(),
        n <= b.len(),
        forall|l: int| 0 <= l < n ==> a[l] == b[l],
    ensures
        lookup(a, name, n) == lookup(b, name, n),
    decreases n,
{
    if n > 0 {
        lemma_lookup_below(a, b, name, (n - 1) as nat);
    }
}

/// Index at or after `from` before which a binding of `name` is inserted: that
/// of the first binding whose name is not below `name`.
pub open spec fn insert_pos(level: Seq<(Seq<char>, usize)>, name: Seq<char>, from: int) -> int
    decreases level.len() - from,
{
    if from < 0 || from >= level.len() {
        level.len() as int
    } else if !lex_lt(level[from].0, name) {
        from
    } else {
        insert_pos(level, name, from + 1)
    }
}

/// The names of the level stand in strictly ascending order; no name occurs twice.
pub open spec fn ascending(level: Seq<(Seq<char>, usize)>) -> bool {
    forall|i: int, j: int| 0 <= i < j < level.len()
        ==> lex_lt(#[trigger] level[i].0, #[trigger] level[j].0)
}

/// Every level of the stack is in ascending order.
pub open spec fn all_ascending(stack: Seq<Seq<(Seq<char>, usize)>>) -> bool {
    forall|l: int| 0 <= l < stack.len() ==> ascending(#[trigger] stack[l])
}

/// No name stands before itself.
pub proof fn lemma_lex_irreflexive(a: Seq<char>)
    ensures
        !lex_lt(a, a),
    decreases a.len(),
{
    if a.len() > 0 {
        lemma_lex_irreflexive(a.drop_first());
    }
}

/// Of two different names one stands before the other, and not the other
/// before the one.
pub proof fn lemma_lex_total(a: Seq<char>, b: Seq<char>)
    ensures
        a == b || lex_lt(a, b) || lex_lt(b, a),
        !(lex_lt(a, b) && lex_lt(b, a)),
    decreases a.len(),
{
    if a.len() > 0 && b.len() > 0 {
        lemma_lex_total(a.drop_first(), b.drop_first());
        if a[0] == b[0] && a.drop_first() == b.drop_first() {
            assert(a.len() == b.len()) by {
                assert(a.drop_first().len() == b.drop_first().len());
            }
            assert forall|i: int| 0 <= i < a.len() implies a[i] == b[i] by {
                if i > 0 {
                    assert(a.drop_first()[i - 1] == a[i]);
                    assert(b.drop_first()[i - 1] == b[i]);
                }
            }
            assert(a =~= b);
        }
    } else if a.len() == 0 && b.len() == 0 {
        assert(a =~= b);
    }
}

/// A name before a name that stands before a third stands before the third.
pub proof fn lemma_lex_transitive(a: Seq<char>, b: Seq<char>, c: Seq<char>)
    requires
        lex_lt(a, b),
        lex_lt(b, c),
    ensures
        lex_lt(a, c),
    decreases a.len(),
{
    if a.len() > 0 && b.len() > 0 && c.len() > 0 {
        if a[0] == b[0] && b[0] == c[0] {
            lemma_lex_transitive(a.drop_first(), b.drop_first(), c.drop_first());
        }
    }
}

/// Before the place of insertion stand the names below `name` only, and the
/// name at that place is not below `name`.
pub proof fn lemma_insert_pos(level: Seq<(Seq<char>, usize)>, name: Seq<char>, from: int)
    requires
        0 <= from <= level.len(),
    ensures
        from <= insert_pos(level, name, from) <= level.len(),
        forall|i: int| from <= i < insert_pos(level, name, from) ==> lex_lt(level[i].0, name),
        insert_pos(level, name, from) < level.len() ==> !lex_lt(
            level[insert_pos(level, name, from)].0,
            name,
        ),
    decreases level.len() - from,
{
    if from < level.len() && lex_lt(level[from].0, name) {
        lemma_insert_pos(level, name, from + 1);
    }
}

/// A name that is not found is the name of no binding.
pub proof fn lemma_find_name(level: Seq<(Seq<char>, usize)>, name: Seq<char>, from: int)
    requires
        0 <= from <= level.len(),
    ensures
        find_name(level, name, from) == -1 ==> forall|i: int|
            from <= i < level.len() ==> level[i].0 != name,
        find_name(level, name, from) != -1 ==> from <= find_name(level, name, from) < level.len()
            && level[find_name(level, name, from)].0 == name,
    decreases level.len() - from,
{
    if from < level.len() && level[from].0 != name {
        lemma_find_name(level, name, from + 1);
    }
}

/// In a level in ascending order no two bindings have the same name.
pub proof fn lemma_ascending_unique(level: Seq<(Seq<char>, usize)>, i: int, j: int)
    requires
        ascending(level),
        0 <= i < level.len(),
        0 <= j < level.len(),
        level[i].0 == level[j].0,
    ensures
        i == j,
{
    lemma_lex_irreflexive(level[i].0);
    if i < j {
        assert(lex_lt(level[i].0, level[j].0));
    } else if j < i {
        assert(lex_lt(level[j].0, level[i].0));
    }
}

/// Binding a new name where `define_var` puts it keeps a level in ascending order.
pub proof fn lemma_define_keeps_order(level: Seq<(Seq<char>, usize)>, name: Seq<char>, nid: usize)
    requires
        ascending(level),
        find_name(level, name, 0) == -1,
    ensures
        ascending(level.insert(insert_pos(level, name, 0), (name, nid))),
{
    let p = insert_pos(level, name, 0);
    let after = level.insert(p, (name, nid));
    lemma_insert_pos(level, name, 0);
    lemma_find_name(level, name, 0);
    assert forall|i: int, j: int| 0 <= i < j < after.len() implies lex_lt(
        #[trigger] after[i].0,
        #[trigger] after[j].0,
    ) by {
        if j < p {
            assert(after[i] == level[i] && after[j] == level[j]);
        } else if j == p {
            assert(after[i] == level[i]);
        } else if i < p {
            assert(after[i] == level[i] && after[j] == level[j - 1]);
            if j - 1 > i {
            } else {
                assert(false);
            }
        } else if i == p {
            assert(after[j] == level[j - 1]);
            lemma_lex_total(level[p].0, name);
            if j - 1 > p {
                assert(lex_lt(level[p].0, level[j - 1].0));
                lemma_lex_transitive(name, level[p].0, level[j - 1].0);
            }
        } else {
            assert(after[i] == level[i - 1] && after[j] == level[j - 1]);
        }
    }
}

/// Taking a binding out keeps a level in ascending order.
pub proof fn lemma_undefine_keeps_order(level: Seq<(Seq<char>, usize)>, i: int)
    requires
        ascending(level),
        0 <= i < level.len(),
    ensures
        ascending(level.remove(i)),
{
    let after = level.remove(i);
    assert forall|a: int, b: int| 0 <= a < b < after.len() implies lex_lt(
        #[trigger] after[a].0,
        #[trigger] after[b].0,
    ) by {
        let x = if a < i { a } else { a + 1 };
        let y = if b < i { b } else { b + 1 };
        assert(after[a] == level[x] && after[b] == level[y]);
    }
}

/// Whether `a` stands before `b` in lexicographic order.
pub fn name_less(a: &str, b: &str) -> (r: bool)
    ensures
        r == lex_lt(a@, b@),
{
    let x = chars_of(a);
    let y = chars_of(b);
    let mut i: usize = 0;
    assert(x@.subrange(0, x@.len() as int) =~= x@);
    assert(y@.subrange(0, y@.len() as int) =~= y@);
    while i < x.len() && i < y.len()
        invariant
            x@ == a@,
            y@ == b@,
            i <= x@.len(),
            i <= y@.len(),
            lex_lt(x@, y@) == lex_lt(x@.subrange(i as int, x@.len() as int), y@.subrange(i as int, y@.len() as int)),
        decreases x.len() - i,
    {
        let ghost xs = x@.subrange(i as int, x@.len() as int);
        let ghost ys = y@.subrange(i as int, y@.len() as int);
        if x[i] != y[i] {
            assert(xs[0] == x@[i as int] && ys[0] == y@[i as int]);
            assert(lex_lt(xs, ys) == (xs[0] < ys[0]));
            return x[i] < y[i];
        }
        assert(xs.drop_first() =~= x@.subrange(i + 1, x@.len() as int));
        assert(ys.drop_first() =~= y@.subrange(i + 1, y@.len() as int));
        i += 1;
    }
    i < y.len()
}

fn find_in_level(level: &Vec<Binding>, name: &String) -> (r: Option<usize>)
    ensures
        match r {
            Some(i) => i < level@.len() && i as int == find_name(level_view(level@), name@, 0),
            None => find_name(level_view(level@), name@, 0) == -1,
        },
{
    let mut i: usize = 0;
    while i < level.len()
        invariant
            i <= level@.len(),
            find_name(level_view(level@), name@, 0)
                == find_name(level_view(level@), name@, i as int),
        decreases level.len() - i,
    {
        if level[i].name == *name {
            return Some(i);
        }
        i += 1;
    }
    None
}

fn find_insert_pos(level: &Vec<Binding>, name: &str) -> (r: usize)
    ensures
        r <= level@.len(),
        r as int == insert_pos(level_view(level@), name@, 0),
{
    let mut i: usize = 0;
    while i < level.len()
        invariant
            i <= level@.len(),
            insert_pos(level_view(level@), name@, 0)
                == insert_pos(level_view(level@), name@, i as int),
        decreases level.len() - i,
    {
        if !name_less(level[i].name.as_str(), name) {
            return i;
        }
        i += 1;
    }
    i
}

fn find_in_stack(scopes: &Vec<Vec<Binding>>, name: &String) -> (r: Option<usize>)
    ensures
        r == lookup(stack_view(scopes@), name@, scopes@.len()),
{
    let mut n: usize = scopes.len();
    while n > 0
        invariant
            n <= scopes@.len(),
            lookup(stack_view(scopes@), name@, scopes@.len())
                == lookup(stack_view(scopes@), name@, n as nat),
        decreases n,
    {
        if let Some(i) = find_in_level(&scopes[n - 1], name) {
            return Some(scopes[n - 1][i].nid);
        }
        n -= 1;
    }
    None
}

/// Closing a scope level leaves every node in its slot.
pub proof fn lemma_pop_keeps_live(old: Seq<Option<Node>>, new: Seq<Option<Node>>, nid: usize)
    requires
        live(old, nid),
        exists|stack: Seq<Seq<(Seq<char>, usize)>>, slots: Seq<usize>, mid: Seq<Option<Node>>|
            #[trigger] stack_replaced(old, mid, stack) && #[trigger] edges_removed(
                mid,
                new,
                SCOPE_NID,
                slots,
            ),
    ensures
        live(new, nid),
{
    let (stack, slots, mid) = choose|
        stack: Seq<Seq<(Seq<char>, usize)>>,
        slots: Seq<usize>,
        mid: Seq<Option<Node>>,
    |
        #[trigger] stack_replaced(old, mid, stack) && #[trigger] edges_removed(
            mid,
            new,
            SCOPE_NID,
            slots,
        );
    assert(live(mid, nid)) by {
        if nid != SCOPE_NID {
            assert(mid[nid as int] == old[nid as int]);
        }
    }
    lemma_edges_removed_keep_live(mid, new, SCOPE_NID, slots, nid);
}

/// Taking a binding out leaves every node in its slot.
pub proof fn lemma_undefine_keeps_live(old: Seq<Option<Node>>, new: Seq<Option<Node>>, nid: usize)
    requires
        live(old, nid),
        exists|stack: Seq<Seq<(Seq<char>, usize)>>, def: usize, mid: Seq<Option<Node>>|
            #[trigger] stack_replaced(old, mid, stack) && #[trigger] edge_removed(
                mid,
                new,
                SCOPE_NID,
                def,
            ),
    ensures
        live(new, nid),
{
    let (stack, def, mid) = choose|
        stack: Seq<Seq<(Seq<char>, usize)>>,
        def: usize,
        mid: Seq<Option<Node>>,
    |
        #[trigger] stack_replaced(old, mid, stack) && #[trigger] edge_removed(
            mid,
            new,
            SCOPE_NID,
            def,
        );
    if nid != SCOPE_NID {
        assert(mid[nid as int] == old[nid as int]);
    }
    if nid != SCOPE_NID && nid != def {
        assert(new[nid as int] == mid[nid as int]);
    }
}

/// Removing edges leaves every node in its slot.
pub proof fn lemma_edges_removed_keep_live(
    old: Seq<Option<Node>>,
    new: Seq<Option<Node>>,
    user: usize,
    defs: Seq<usize>,
    nid: usize,
)
    requires
        live(old, nid),
        edges_removed(old, new, user, defs),
    ensures
        live(new, nid),
    decreases defs.len(),
{
    if defs.len() > 0 {
        let mid = choose|mid: Seq<Option<Node>>|
            edges_removed(old, mid, user, defs.drop_last()) && #[trigger] edge_removed(
                mid,
                new,
                user,
                defs.last(),
            );
        lemma_edges_removed_keep_live(old, mid, user, defs.drop_last(), nid);
        if nid != user && nid != defs.last() {
            assert(new[nid as int] == mid[nid as int]);
        }
    }
}

/// Number of levels of the scope stack.
fn scope_depth(graph: &Graph) -> (r: Option<usize>)
    ensures
        match r {
            Some(n) => scope_stack(graph@) is Some && scope_stack(graph@)->0.len() == n,
            None => scope_stack(graph@) is None,
        },
{
    match graph.get_node(SCOPE_NID) {
        Ok(node) => match &node.node_kind {
            NodeKind::Scope { scopes } => Some(scopes.len()),
            _ => None,
        },
        Err(_) => None,
    }
}

impl Parser {
    /// The slot bound to `name` in the innermost scope level that binds it.
    pub fn get_var(&self, name: &str) -> (r: Option<usize>)
        ensures
            r == match scope_stack(self.graph@) {
                Some(stack) => lookup(stack, name@, stack.len()),
                None => None,
            },
    {
        match self.graph.get_node(SCOPE_NID) {
            Ok(node) => match &node.node_kind {
                NodeKind::Scope { scopes } => {
                    let key = String::from_str(name);
                    find_in_stack(scopes, &key)
                },
                _ => None,
            },
            Err(_) => None,
        }
    }

    /// Opens a scope level without bindings.
    pub fn push_scope(&mut self) -> (r: Result<(), SoNError>)
        ensures
            r is Ok ==> scope_moved(
                old(self).graph@,
                final(self).graph@,
                names(old(self).graph@).push(Set::empty()),
            ),
            r is Ok && tidy(old(self).graph@) ==> tidy(final(self).graph@),
            pins_held(old(self).graph@, final(self).graph@),
            final(self).linked_from(old(self)),
            all_ascending(scope_stack(old(self).graph@)->0) ==> all_ascending(
                scope_stack(final(self).graph@)->0,
            ),
            anchor_kept(old(self).graph@, final(self).graph@),
            tidy(old(self).graph@) && old(self).graph.linked() ==> slack_kept(
                old(self).graph@,
                final(self).graph@,
            ),
            rebound(old(self).graph@, final(self).graph@),
            final(self).same_but_graph(old(self)),
            final(self).grows_from(old(self)),
            match r {
                Ok(_) => {
                    &&& scope_stack(old(self).graph@) is Some
                    &&& scope_stack(final(self).graph@) == Some(
                        scope_stack(old(self).graph@)->0.push(Seq::empty()),
                    )
                    &&& final(self).graph@.len() == old(self).graph@.len()
                    &&& forall|j: usize|
                        j < old(self).graph@.len()
                            && j != SCOPE_NID ==> #[trigger] final(self).graph@[j as int]
                                == old(self).graph@[j as int]
                    &&& final(self).graph@[SCOPE_NID as int]->0.same_but_kind(
                        &old(self).graph@[SCOPE_NID as int]->0,
                    )
                },
                Err(e) => e is NodeIdNotExisting && scope_stack(old(self).graph@) is None
                    && final(self).graph@ == old(self).graph@,
            },
    {
        if scope_depth(&self.graph).is_none() {
            return Err(SoNError::NodeIdNotExisting);
        }
        match self.graph.get_node_mut(SCOPE_NID) {
            Ok(node) => match &mut node.node_kind {
                NodeKind::Scope { scopes } => {
                    let ghost before = scopes@;
                    scopes.push(Vec::new());
                    assert(stack_view(scopes@) =~~= stack_view(before).push(Seq::empty()));
                    assert(ascending(Seq::<(Seq<char>, usize)>::empty()));
                    assert(level_names(Seq::<(Seq<char>, usize)>::empty()) =~= Set::empty());
                },
                _ => {},
            },
            Err(_) => {},
        }
        assert(names(self.graph@) =~~= names(old(self).graph@).push(Set::empty()));
        proof {
            let stack = scope_stack(old(self).graph@)->0;
            let after = scope_stack(self.graph@)->0;
            lemma_bonds_replaced(old(self).graph@, self.graph@, after);
            lemma_rebound_stack(old(self).graph@, self.graph@, after);
            lemma_rebound_anchor(old(self).graph@, self.graph@);
            if old(self).graph.linked() {
                lemma_linked_replaced(old(self).graph@, self.graph@, after, self.graph.next_uid());
            }
            assert(after.drop_last() =~= stack);
            assert(bound_slots(after.last()) =~= Seq::<usize>::empty());
            assert forall|x: usize| #[trigger] bound_count(after, x) == bound_count(stack, x) by {}
            assert forall|x: usize| #[trigger]
                in_mult(self.graph@, SCOPE_NID, x) - bound_count(after, x) == in_mult(
                    old(self).graph@,
                    SCOPE_NID,
                    x,
                ) - bound_count(stack, x) by {
                assert(bound_count(after, x) == bound_count(stack, x));
            }
        }
        Ok(())
    }

    /// Binds `name` to the node `nid` in the innermost scope level, which must
    /// not bind it yet.  The node becomes an input of the scope node, so that
    /// the binding keeps it alive.  Nothing changes on failure.
    pub fn define_var(&mut self, name: &str, nid: usize) -> (r: Result<(), SoNError>)
        ensures
            r is Ok ==> scope_moved(
                old(self).graph@,
                final(self).graph@,
                names(old(self).graph@).update(
                    names(old(self).graph@).len() - 1,
                    names(old(self).graph@).last().insert(name@),
                ),
            ),
            r is Ok ==> !names(old(self).graph@).last().contains(name@),
            r is Err && r->Err_0 is VariableRedefinition
                ==> names(old(self).graph@).last().contains(
                name@,
            ),
            r is Ok && tidy(old(self).graph@) ==> tidy(final(self).graph@),
            pins_held(old(self).graph@, final(self).graph@),
            final(self).linked_from(old(self)),
            r is Ok ==> lookup(
                scope_stack(final(self).graph@)->0,
                name@,
                scope_stack(final(self).graph@)->0.len(),
            ) == Some(nid),
            all_ascending(scope_stack(old(self).graph@)->0) ==> all_ascending(
                scope_stack(final(self).graph@)->0,
            ),
            anchor_kept(old(self).graph@, final(self).graph@),
            tidy(old(self).graph@) && old(self).graph.linked() ==> slack_kept(
                old(self).graph@,
                final(self).graph@,
            ),
            rebound(old(self).graph@, final(self).graph@),
            final(self).same_but_graph(old(self)),
            final(self).grows_from(old(self)),
            match r {
                Ok(_) => {
                    let stack = scope_stack(old(self).graph@)->0;
                    let top = stack.len() - 1;
                    &&& scope_stack(old(self).graph@) is Some
                    &&& stack.len() > 0
                    &&& live(old(self).graph@, nid)
                    &&& find_name(stack[top], name@, 0) == -1
                    &&& 0 <= insert_pos(stack[top], name@, 0) <= stack[top].len()
                    &&& scope_stack(final(self).graph@) == Some(
                        stack.update(
                            top,
                            stack[top].insert(insert_pos(stack[top], name@, 0), (name@, nid)),
                        ),
                    )
                    &&& exists|mid: Seq<Option<Node>>|
                        #[trigger] edge_added(old(self).graph@, mid, SCOPE_NID, nid)
                            && stack_replaced(
                            mid,
                            final(self).graph@,
                            stack.update(
                                top,
                                stack[top].insert(insert_pos(stack[top], name@, 0), (name@, nid)),
                            ),
                        )
                },
                Err(SoNError::VariableRedefinition { variable }) => {
                    let stack = scope_stack(old(self).graph@)->0;
                    &&& scope_stack(old(self).graph@) is Some
                    &&& stack.len() > 0
                    &&& live(old(self).graph@, nid)
                    &&& find_name(stack[stack.len() - 1], name@, 0) >= 0
                    &&& variable@ == name@
                    &&& final(self).graph@ == old(self).graph@
                },
                Err(SoNError::NodeIdNotExisting) => {
                    &&& scope_stack(old(self).graph@) is None || scope_stack(
                        old(self).graph@,
                    )->0.len() == 0 || !live(old(self).graph@, nid)
                    &&& final(self).graph@ == old(self).graph@
                },
                Err(_) => false,
            },
    {
        let key = String::from_str(name);
        let pos = match self.graph.get_node(SCOPE_NID) {
            Ok(node) => match &node.node_kind {
                NodeKind::Scope { scopes } => {
                    if scopes.len() == 0 || !self.graph.node_exists(nid) {
                        return Err(SoNError::NodeIdNotExisting);
                    }
                    let level = &scopes[scopes.len() - 1];
                    if find_in_level(level, &key).is_some() {
                        return Err(SoNError::VariableRedefinition { variable: key });
                    }
                    find_insert_pos(level, name)
                },
                _ => {
                    return Err(SoNError::NodeIdNotExisting);
                },
            },
            Err(e) => {
                return Err(e);
            },
        };
        let ghost stack = scope_stack(self.graph@)->0;
        let ghost top = stack.len() - 1;
        match self.graph.add_dependency_br(SCOPE_NID, nid) {
            Ok(_) => {},
            Err(e) => {
                return Err(e);
            },
        }
        let ghost mid = self.graph@;
        match self.graph.get_node_mut(SCOPE_NID) {
            Ok(node) => match &mut node.node_kind {
                NodeKind::Scope { scopes } => {
                    let ghost before = scopes@;
                    let last = scopes.len() - 1;
                    scopes[last].insert(pos, Binding { name: key, nid });
                    assert(stack_view(scopes@) =~~= stack.update(
                        top,
                        stack[top].insert(pos as int, (name@, nid)),
                    ));
                },
                _ => {},
            },
            Err(_) => {},
        }
        assert(stack_replaced(
            mid,
            self.graph@,
            stack.update(top, stack[top].insert(insert_pos(stack[top], name@, 0), (name@, nid))),
        ));
        proof {
            if all_ascending(stack) {
                lemma_define_keeps_order(stack[top], name@, nid);
            }
            lemma_insert_pos(stack[top], name@, 0);
            lemma_names_insert(stack[top], insert_pos(stack[top], name@, 0), name@, nid);
            lemma_scope_edge(old(self).graph@, mid, nid);
            assert(names(self.graph@) =~~= names(old(self).graph@).update(
                top,
                names(old(self).graph@).last().insert(name@),
            ));
            let at = insert_pos(stack[top], name@, 0);
            let after = stack.update(top, stack[top].insert(at, (name@, nid)));
            lemma_find_inserted(stack[top], at, name@, nid, 0);
            lemma_rebound_edge(old(self).graph@, mid, nid);
            lemma_rebound_stack(mid, self.graph@, after);
            lemma_rebound_twice(old(self).graph@, mid, self.graph@);
            lemma_rebound_anchor(old(self).graph@, self.graph@);
            lemma_bond_moved(old(self).graph@, mid, nid, true);
            lemma_bonds_replaced(mid, self.graph@, after);
            lemma_scope_edge_pins(old(self).graph@, mid, nid);
            if old(self).graph.linked() {
                lemma_linked_added(old(self).graph@, mid, SCOPE_NID, nid, self.graph.next_uid());
                lemma_linked_replaced(mid, self.graph@, after, self.graph.next_uid());
            }
            assert(after.drop_last() =~= stack.drop_last());
            assert(bound_slots(after.last()) =~= bound_slots(stack.last()).insert(at, nid));
            assert forall|x: usize| #[trigger] bound_count(after, x) == bound_count(stack, x) + if x
                == nid {
                1nat
            } else {
                0nat
            } by {
                lemma_count_insert(bound_slots(stack.last()), at, nid, x);
            }
            assert forall|x: usize| #[trigger]
                in_mult(self.graph@, SCOPE_NID, x) - bound_count(after, x) == in_mult(
                    old(self).graph@,
                    SCOPE_NID,
                    x,
                ) - bound_count(stack, x) by {
                lemma_count_push(old(self).graph@[SCOPE_NID as int]->0.inputs@, nid, x);
                assert(bound_count(after, x) == bound_count(stack, x) + if x == nid {
                    1nat
                } else {
                    0nat
                });
            }
        }
        Ok(())
    }

    /// Removes the binding of `name` from the innermost scope level and returns
    /// the slot that was bound; the scope node stops depending on that node.
    /// Nothing changes on failure.
    pub fn undefine_var(&mut self, name: &str) -> (r: Result<usize, SoNError>)
        ensures
            r is Ok ==> scope_moved(
                old(self).graph@,
                final(self).graph@,
                names(old(self).graph@).update(
                    names(old(self).graph@).len() - 1,
                    names(old(self).graph@).last().remove(name@),
                ),
            ),
            r is Ok ==> names(old(self).graph@).last().contains(name@),
            r is Err && r->Err_0 is VariableUndefined ==> !names(old(self).graph@).last().contains(
                name@,
            ),
            r is Ok && tidy(old(self).graph@) ==> tidy(final(self).graph@),
            pins_held(old(self).graph@, final(self).graph@),
            final(self).linked_from(old(self)),
            all_ascending(scope_stack(old(self).graph@)->0) ==> all_ascending(
                scope_stack(final(self).graph@)->0,
            ),
            anchor_kept(old(self).graph@, final(self).graph@),
            tidy(old(self).graph@) && old(self).graph.linked() ==> slack_kept(
                old(self).graph@,
                final(self).graph@,
            ),
            rebound(old(self).graph@, final(self).graph@),
            final(self).same_but_graph(old(self)),
            final(self).grows_from(old(self)),
            match r {
                Ok(nid) => {
                    let stack = scope_stack(old(self).graph@)->0;
                    let top = stack.len() - 1;
                    let i = find_name(stack[top], name@, 0);
                    &&& scope_stack(old(self).graph@) is Some
                    &&& stack.len() > 0
                    &&& 0 <= i < stack[top].len()
                    &&& nid == stack[top][i].1
                    &&& live(old(self).graph@, nid)
                    &&& scope_stack(final(self).graph@) == Some(
                        stack.update(top, stack[top].remove(i)),
                    )
                    &&& exists|mid: Seq<Option<Node>>|
                        #[trigger] stack_replaced(
                            old(self).graph@,
                            mid,
                            stack.update(top, stack[top].remove(i)),
                        ) && edge_removed(mid, final(self).graph@, SCOPE_NID, nid)
                },
                Err(SoNError::VariableUndefined { variable }) => {
                    let stack = scope_stack(old(self).graph@)->0;
                    &&& scope_stack(old(self).graph@) is Some
                    &&& stack.len() > 0
                    &&& find_name(stack[stack.len() - 1], name@, 0) == -1
                    &&& variable@ == name@
                    &&& final(self).graph@ == old(self).graph@
                },
                Err(SoNError::NodeIdNotExisting) => {
                    let stack = scope_stack(old(self).graph@)->0;
                    let top = stack.len() - 1;
                    let i = find_name(stack[top], name@, 0);
                    &&& scope_stack(old(self).graph@) is None || stack.len() == 0 || (0 <= i
                        < stack[top].len() && !live(old(self).graph@, stack[top][i].1))
                    &&& final(self).graph@ == old(self).graph@
                },
                Err(_) => false,
            },
    {
        let key = String::from_str(name);
        let (index, nid) = match self.graph.get_node(SCOPE_NID) {
            Ok(node) => match &node.node_kind {
                NodeKind::Scope { scopes } => {
                    if scopes.len() == 0 {
                        return Err(SoNError::NodeIdNotExisting);
                    }
                    let level = &scopes[scopes.len() - 1];
                    match find_in_level(level, &key) {
                        Some(i) => (i, level[i].nid),
                        None => {
                            return Err(SoNError::VariableUndefined { variable: key });
                        },
                    }
                },
                _ => {
                    return Err(SoNError::NodeIdNotExisting);
                },
            },
            Err(e) => {
                return Err(e);
            },
        };
        if !self.graph.node_exists(nid) {
            return Err(SoNError::NodeIdNotExisting);
        }
        let ghost stack = scope_stack(self.graph@)->0;
        let ghost top = stack.len() - 1;
        match self.graph.get_node_mut(SCOPE_NID) {
            Ok(node) => match &mut node.node_kind {
                NodeKind::Scope { scopes } => {
                    let last = scopes.len() - 1;
                    scopes[last].remove(index);
                    assert(stack_view(scopes@) =~~= stack.update(
                        top,
                        stack[top].remove(index as int),
                    ));
                },
                _ => {},
            },
            Err(_) => {},
        }
        let ghost mid = self.graph@;
        assert(stack_replaced(
            old(self).graph@,
            mid,
            stack.update(top, stack[top].remove(index as int)),
        ));
        proof {
            lemma_find_name(stack[top], name@, 0);
            if all_ascending(stack) {
                lemma_undefine_keeps_order(stack[top], index as int);
                lemma_names_remove(stack[top], index as int);
            }
            assert(all_ascending(stack) ==> names(mid) =~~= names(old(self).graph@).update(
                top,
                names(old(self).graph@).last().remove(name@),
            ));
        }
        match self.graph.remove_dependency_br(SCOPE_NID, nid) {
            Ok(_) => {},
            Err(e) => {
                return Err(e);
            },
        }
        proof {
            lemma_scope_edge(mid, self.graph@, nid);
            let after = stack.update(top, stack[top].remove(index as int));
            lemma_bonds_replaced(old(self).graph@, mid, after);
            lemma_rebound_stack(old(self).graph@, mid, after);
            lemma_rebound_edge(mid, self.graph@, nid);
            lemma_rebound_twice(old(self).graph@, mid, self.graph@);
            lemma_rebound_anchor(old(self).graph@, self.graph@);
            lemma_bond_moved(mid, self.graph@, nid, false);
            lemma_scope_edge_pins(mid, self.graph@, nid);
            if old(self).graph.linked() {
                lemma_linked_replaced(old(self).graph@, mid, after, self.graph.next_uid());
                lemma_linked_removed(mid, self.graph@, SCOPE_NID, nid, self.graph.next_uid());
            }
            lemma_slot_counted(stack.last(), index as int);
            assert(after.drop_last() =~= stack.drop_last());
            assert(bound_slots(after.last()) =~= bound_slots(stack.last()).remove(index as int));
            assert forall|x: usize| #[trigger] bound_count(after, x) + (if x == nid {
                1nat
            } else {
                0nat
            }) == bound_count(stack, x) by {
                crate::nodes::graph::lemma_count_remove(bound_slots(stack.last()), index as int, x);
            }
            if tidy(old(self).graph@) {
                assert(bound_count(stack, nid) <= out_mult(old(self).graph@, nid, SCOPE_NID));
                if old(self).graph.linked() {
                    assert(out_mult(old(self).graph@, nid, SCOPE_NID) <= in_mult(
                        old(self).graph@,
                        SCOPE_NID,
                        nid,
                    ));
                    assert(bound_count(after, nid) + 1 == bound_count(stack, nid));
                    assert forall|x: usize| #[trigger]
                        in_mult(self.graph@, SCOPE_NID, x) - bound_count(after, x) == in_mult(
                            old(self).graph@,
                            SCOPE_NID,
                            x,
                        ) - bound_count(stack, x) by {
                        crate::nodes::graph::lemma_count_remove_last(
                            old(self).graph@[SCOPE_NID as int]->0.inputs@,
                            nid,
                            x,
                        );
                        assert(bound_count(after, x) + (if x == nid {
                            1nat
                        } else {
                            0nat
                        }) == bound_count(stack, x));
                    }
                }
            }
        }
        Ok(nid)
    }

    /// The node that stands for the control flow at this point of the program.
    pub fn ctrl(&self) -> (r: Option<usize>)
        ensures
            r == match scope_stack(self.graph@) {
                Some(stack) => lookup(stack, "$ctrl"@, stack.len()),
                None => None,
            },
    {
        self.get_var("$ctrl")
    }

    /// Closes the innermost scope level; the scope node stops depending on the
    /// nodes that the level bound.  Nothing changes on failure.
    pub fn pop_scope(&mut self) -> (r: Result<(), SoNError>)
        ensures
            r is Ok ==> scope_moved(
                old(self).graph@,
                final(self).graph@,
                names(old(self).graph@).drop_last(),
            ),
            r is Ok && tidy(old(self).graph@) ==> tidy(final(self).graph@),
            pins_held(old(self).graph@, final(self).graph@),
            final(self).linked_from(old(self)),
            all_ascending(scope_stack(old(self).graph@)->0) ==> all_ascending(
                scope_stack(final(self).graph@)->0,
            ),
            anchor_kept(old(self).graph@, final(self).graph@),
            tidy(old(self).graph@) && old(self).graph.linked() ==> slack_kept(
                old(self).graph@,
                final(self).graph@,
            ),
            rebound(old(self).graph@, final(self).graph@),
            final(self).same_but_graph(old(self)),
            final(self).grows_from(old(self)),
            match r {
                Ok(_) => {
                    let stack = scope_stack(old(self).graph@)->0;
                    &&& scope_stack(old(self).graph@) is Some
                    &&& stack.len() > 0
                    &&& scope_stack(final(self).graph@) == Some(stack.drop_last())
                    &&& exists|mid: Seq<Option<Node>>|
                        #[trigger] stack_replaced(old(self).graph@, mid, stack.drop_last())
                            && edges_removed(
                            mid,
                            final(self).graph@,
                            SCOPE_NID,
                            bound_slots(stack.last()),
                        )
                },
                Err(e) => {
                    let stack = scope_stack(old(self).graph@)->0;
                    &&& e is NodeIdNotExisting
                    &&& scope_stack(old(self).graph@) is None || stack.len() == 0 || exists|i: int|
                        0 <= i < stack.last().len() && !live(
                            old(self).graph@,
                            #[trigger] stack.last()[i].1,
                        )
                    &&& final(self).graph@ == old(self).graph@
                },
            },
    {
        match self.graph.get_node(SCOPE_NID) {
            Ok(node) => match &node.node_kind {
                NodeKind::Scope { scopes } => {
                    if scopes.len() == 0 {
                        return Err(SoNError::NodeIdNotExisting);
                    }
                    let level = &scopes[scopes.len() - 1];
                    let mut i: usize = 0;
                    while i < level.len()
                        invariant
                            i <= level@.len(),
                            *self == *old(self),
                            scope_stack(self.graph@) is Some,
                            scope_stack(self.graph@)->0.len() > 0,
                            level_view(level@) == scope_stack(self.graph@)->0.last(),
                            forall|k: int| 0 <= k < i
                                ==> live(self.graph@, #[trigger] level@[k].nid),
                        decreases level.len() - i,
                    {
                        if !self.graph.node_exists(level[i].nid) {
                            assert(level_view(level@)[i as int].1 == level@[i as int].nid);
                            return Err(SoNError::NodeIdNotExisting);
                        }
                        i += 1;
                    }
                },
                _ => {
                    return Err(SoNError::NodeIdNotExisting);
                },
            },
            Err(e) => {
                return Err(e);
            },
        }
        let ghost stack = scope_stack(self.graph@)->0;
        let mut level: Vec<Binding> = Vec::new();
        match self.graph.get_node_mut(SCOPE_NID) {
            Ok(node) => match &mut node.node_kind {
                NodeKind::Scope { scopes } => {
                    if let Some(popped) = scopes.pop() {
                        level = popped;
                    }
                    assert(stack_view(scopes@) =~~= stack.drop_last());
                },
                _ => {},
            },
            Err(_) => {},
        }
        let ghost mid = self.graph@;
        let ghost slots = bound_slots(stack.last());
        assert(level_view(level@) == stack.last());
        assert(stack_replaced(old(self).graph@, mid, stack.drop_last()));
        let mut k: usize = 0;
        assert(slots.take(0) =~= Seq::<usize>::empty());
        proof {
            lemma_bonds_replaced(old(self).graph@, mid, stack.drop_last());
            lemma_rebound_stack(old(self).graph@, mid, stack.drop_last());
            if old(self).graph.linked() {
                lemma_linked_replaced(
                    old(self).graph@,
                    mid,
                    stack.drop_last(),
                    self.graph.next_uid(),
                );
            }
            assert(slots.skip(0) =~= slots);
            if tidy(old(self).graph@) {
                assert forall|x: usize|
                    bound_count(stack.drop_last(), x) + count(
                        slots.skip(0),
                        x,
                    ) <= #[trigger] out_mult(mid, x, SCOPE_NID) by {
                    assert(bound_count(stack, x) <= out_mult(old(self).graph@, x, SCOPE_NID));
                }
            }
        }
        while k < level.len()
            invariant
                k <= level@.len(),
                slots.len() == level@.len(),
                forall|i: int| 0 <= i < level@.len() ==> slots[i] == #[trigger] level@[i].nid,
                forall|i: int| 0 <= i < level@.len() ==> live(mid, #[trigger] level@[i].nid),
                live(mid, SCOPE_NID),
                self.graph@.len() == mid.len(),
                forall|j: usize| live(mid, j) ==> live(self.graph@, j),
                self.lexer == old(self).lexer,
                self.do_optimize == old(self).do_optimize,
                self._dbg_output == old(self)._dbg_output,
                self.graph.next_uid() == old(self).graph.next_uid(),
                retained(old(self).graph@, self.graph@),
                scope_stack(self.graph@) == Some(stack.drop_last()),
                live(old(self).graph@, KEEP_ALIVE_NID) ==> live(self.graph@, KEEP_ALIVE_NID),
                out_mult(self.graph@, SCOPE_NID, KEEP_ALIVE_NID) == out_mult(
                    old(self).graph@,
                    SCOPE_NID,
                    KEEP_ALIVE_NID,
                ),
                self.linked_from(old(self)),
                forall|x: usize| #[trigger]
                    out_mult(self.graph@, x, KEEP_ALIVE_NID) == out_mult(
                        old(self).graph@,
                        x,
                        KEEP_ALIVE_NID,
                    ),
                tidy(old(self).graph@) ==> forall|x: usize|
                    bound_count(stack.drop_last(), x) + count(
                        slots.skip(k as int),
                        x,
                    ) <= #[trigger] out_mult(self.graph@, x, SCOPE_NID),
                edges_removed(mid, self.graph@, SCOPE_NID, slots.take(k as int)),
                rebound(old(self).graph@, self.graph@),
                tidy(old(self).graph@) && old(self).graph.linked() ==> forall|x: usize| #[trigger]
                    in_mult(self.graph@, SCOPE_NID, x) + count(slots.take(k as int), x) == in_mult(
                        old(self).graph@,
                        SCOPE_NID,
                        x,
                    ),
            decreases level.len() - k,
        {
            let ghost before = self.graph@;
            let dep = level[k].nid;
            assert(live(mid, level@[k as int].nid));
            match self.graph.remove_dependency_br(SCOPE_NID, dep) {
                Ok(_) => {},
                Err(_) => {},
            }
            proof {
                assert(slots.take(k + 1).drop_last() =~= slots.take(k as int));
                assert(slots.take(k + 1).last() == dep);
                assert(edge_removed(before, self.graph@, SCOPE_NID, dep));
                lemma_retained(before, self.graph@, SCOPE_NID, dep);
                lemma_retained_transitive(old(self).graph@, before, self.graph@);
                lemma_scope_edge(before, self.graph@, dep);
                lemma_scope_edge_pins(before, self.graph@, dep);
                if well_linked(before, self.graph.next_uid()) {
                    lemma_linked_removed(before, self.graph@, SCOPE_NID, dep, self.graph.next_uid());
                }
                lemma_bond_moved(before, self.graph@, dep, false);
                lemma_rebound_edge(before, self.graph@, dep);
                lemma_rebound_twice(old(self).graph@, before, self.graph@);
                if tidy(old(self).graph@) && old(self).graph.linked() {
                    lemma_count_first(slots.skip(k as int), dep);
                    assert(bound_count(stack.drop_last(), dep) + count(slots.skip(k as int), dep)
                        <= out_mult(before, dep, SCOPE_NID));
                    assert(out_mult(before, dep, SCOPE_NID) <= in_mult(before, SCOPE_NID, dep));
                    assert forall|x: usize| #[trigger]
                        in_mult(self.graph@, SCOPE_NID, x) + count(slots.take(k + 1), x)
                            == in_mult(old(self).graph@, SCOPE_NID, x) by {
                        lemma_count_push(slots.take(k as int), dep, x);
                        crate::nodes::graph::lemma_count_remove_last(
                            before[SCOPE_NID as int]->0.inputs@,
                            dep,
                            x,
                        );
                        assert(in_mult(before, SCOPE_NID, x) + count(slots.take(k as int), x)
                            == in_mult(old(self).graph@, SCOPE_NID, x));
                    }
                }
                if tidy(old(self).graph@) {
                    assert(slots.skip(k as int).drop_first() =~= slots.skip(k + 1));
                    assert forall|x: usize|
                        bound_count(stack.drop_last(), x) + count(
                            slots.skip(k + 1),
                            x,
                        ) <= #[trigger] out_mult(self.graph@, x, SCOPE_NID) by {
                        lemma_count_first(slots.skip(k as int), x);
                        assert(bound_count(stack.drop_last(), x) + count(slots.skip(k as int), x)
                            <= out_mult(before, x, SCOPE_NID));
                    }
                }
                assert forall|j: usize| live(mid, j) implies live(self.graph@, j) by {
                    assert(live(before, j));
                    if j != SCOPE_NID && j != dep {
                        assert(self.graph@[j as int] == before[j as int]);
                    }
                }
            }
            k += 1;
        }
        assert(slots.take(k as int) =~= slots);
        assert(names(self.graph@) =~~= names(old(self).graph@).drop_last());
        proof {
            lemma_rebound_anchor(old(self).graph@, self.graph@);
            if tidy(old(self).graph@) && old(self).graph.linked() {
                assert forall|x: usize| #[trigger]
                    in_mult(self.graph@, SCOPE_NID, x) - bound_count(stack.drop_last(), x)
                        == in_mult(old(self).graph@, SCOPE_NID, x) - bound_count(stack, x) by {
                    assert(in_mult(self.graph@, SCOPE_NID, x) + count(slots.take(k as int), x)
                        == in_mult(old(self).graph@, SCOPE_NID, x));
                }
            }
        }
        assert(slots.skip(k as int) =~= Seq::<usize>::empty());
        Ok(())
    }
}

} // verus!
