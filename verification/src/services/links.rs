use crate::nodes::graph::{
    Graph, all_live, count, edge_added, edge_removed, in_mult, inserted, lemma_count_append_repeat,
    lemma_count_push, lemma_count_remove_last, lemma_last_index_of, lemma_without, live, out_mult,
    without,
};
use crate::nodes::node::{Node, NodeKind};
use crate::services::parser::{KEEP_ALIVE_NID, Parser, SCOPE_NID, START_NID};
use crate::services::scope::{stack_replaced, tidy};
use crate::typ::typ::TypV;
use vstd::prelude::*;

verus! {

/// The edges of the arena `g`, whose next unique id is `next`, are sound:
///
/// - whoever a node lists as an observer is a node that has it as an input,
///   as often at least;
/// - an observer other than the keep-alive node and the scope node was made
///   after what it observes: its unique id is the greater one;
/// - every unique id lies below `next`.
pub open spec fn well_linked(g: Seq<Option<Node>>, next: usize) -> bool {
    &&& forall|d: usize, o: usize| #[trigger] out_mult(g, d, o) <= in_mult(g, o, d)
    &&& forall|d: usize, o: usize|
        #[trigger] out_mult(g, d, o) > 0 && o != KEEP_ALIVE_NID && o != SCOPE_NID
            ==> g[o as int]->0.uid > g[d as int]->0.uid
    &&& forall|x: usize| live(g, x) ==> (#[trigger] g[x as int])->0.uid < next
}

/// No node of `new` lists an observer more often than it did in `old`.
pub open spec fn fewer(old: Seq<Option<Node>>, new: Seq<Option<Node>>) -> bool {
    forall|d: usize, o: usize| #[trigger] out_mult(new, d, o) <= out_mult(old, d, o)
}

/// From the node `x` the keep-alive node or the node `target` is reached
/// along at most `steps` edges, each from a node to one of its observers.
pub open spec fn reaches(g: Seq<Option<Node>>, x: usize, target: usize, steps: nat) -> bool
    decreases steps,
{
    if x == KEEP_ALIVE_NID || x == target {
        true
    } else if steps == 0 {
        false
    } else {
        exists|o: usize| #[trigger] steps_on(g, x, o) && reaches(g, o, target, (steps - 1) as nat)
    }
}

/// The node `o` is there and observes the node `x`.
pub open spec fn steps_on(g: Seq<Option<Node>>, x: usize, o: usize) -> bool {
    out_mult(g, x, o) > 0 && live(g, o)
}

/// An edge from the keep-alive node or from the scope node to a node, once
/// added, is a sound edge.
pub proof fn lemma_linked_added(
    old: Seq<Option<Node>>,
    new: Seq<Option<Node>>,
    user: usize,
    def: usize,
    next: usize,
)
    requires
        well_linked(old, next),
        live(old, user),
        live(old, def),
        edge_added(old, new, user, def),
        user == KEEP_ALIVE_NID || user == SCOPE_NID,
    ensures
        well_linked(new, next),
{
    assert forall|d: usize, o: usize| #[trigger] out_mult(new, d, o) <= in_mult(new, o, d) && (
    out_mult(new, d, o) > 0 && o != KEEP_ALIVE_NID && o != SCOPE_NID ==> new[o as int]->0.uid
        > new[d as int]->0.uid) by {
        assert(out_mult(old, d, o) <= in_mult(old, o, d));
        lemma_count_push(old[user as int]->0.inputs@, def, d);
        lemma_count_push(old[def as int]->0.outputs@, user, o);
        if d < old.len() && d != user && d != def {
            assert(new[d as int] == old[d as int]);
        }
        if o < old.len() && o != user && o != def {
            assert(new[o as int] == old[o as int]);
        }
    }
    assert forall|x: usize| live(new, x) implies (#[trigger] new[x as int])->0.uid < next by {
        let cell = old[x as int];
        if x != user && x != def {
            assert(new[x as int] == old[x as int]);
        }
    }
}

/// Removing an edge leaves the other edges sound.
pub proof fn lemma_linked_removed(
    old: Seq<Option<Node>>,
    new: Seq<Option<Node>>,
    user: usize,
    def: usize,
    next: usize,
)
    requires
        well_linked(old, next),
        live(old, user),
        live(old, def),
        edge_removed(old, new, user, def),
    ensures
        well_linked(new, next),
        fewer(old, new),
{
    assert forall|d: usize, o: usize| #[trigger] out_mult(new, d, o) <= in_mult(new, o, d) && (
    out_mult(new, d, o) > 0 && o != KEEP_ALIVE_NID && o != SCOPE_NID ==> new[o as int]->0.uid
        > new[d as int]->0.uid) && out_mult(new, d, o) <= out_mult(old, d, o) by {
        assert(out_mult(old, d, o) <= in_mult(old, o, d));
        assert(out_mult(old, def, user) <= in_mult(old, user, def));
        lemma_count_remove_last(old[user as int]->0.inputs@, def, d);
        lemma_count_remove_last(old[def as int]->0.outputs@, user, o);
        if d < old.len() && d != user && d != def {
            assert(new[d as int] == old[d as int]);
        }
        if o < old.len() && o != user && o != def {
            assert(new[o as int] == old[o as int]);
        }
    }
    assert forall|x: usize| live(new, x) implies (#[trigger] new[x as int])->0.uid < next by {
        let cell = old[x as int];
        if x != user && x != def {
            assert(new[x as int] == old[x as int]);
        }
    }
}

/// A node that is created observes its inputs by sound edges.
pub proof fn lemma_linked_inserted(
    old: Seq<Option<Node>>,
    new: Seq<Option<Node>>,
    index: usize,
    inputs: Seq<usize>,
    kind: NodeKind,
    uid: usize,
    typ: TypV,
)
    requires
        well_linked(old, uid),
        inserted(old, new, index, inputs, kind, uid, typ),
        !live(old, index),
        all_live(old, inputs),
        uid < usize::MAX,
    ensures
        well_linked(new, (uid + 1) as usize),
{
    assert forall|d: usize, o: usize| #[trigger] out_mult(new, d, o) <= in_mult(new, o, d) && (
    out_mult(new, d, o) > 0 && o != KEEP_ALIVE_NID && o != SCOPE_NID ==> new[o as int]->0.uid
        > new[d as int]->0.uid) by {
        assert(out_mult(old, d, o) <= in_mult(old, o, d));
        assert(out_mult(old, d, index) <= in_mult(old, index, d));
        if d < old.len() && d != index && old[d as int] is Some {
            lemma_count_append_repeat(old[d as int]->0.outputs@, index, count(inputs, d), o);
            let cell = new[d as int];
        }
        if o < old.len() && o != index {
            let cell = old[o as int];
        }
        if o == index && count(inputs, d) > 0 {
            lemma_last_index_of(inputs, d);
            assert(live(old, inputs[crate::nodes::graph::last_index_of(inputs, d)]));
        }
    }
    assert forall|x: usize| live(new, x) implies (#[trigger] new[x as int])->0.uid < uid + 1 by {
        if x != index {
            let cell = old[x as int];
        }
    }
}

/// A node whose cell changes, but not in what it observes, in what observes
/// it, or in its unique id, leaves the edges sound.
pub proof fn lemma_linked_changed(
    old: Seq<Option<Node>>,
    new: Seq<Option<Node>>,
    nid: usize,
    next: usize,
)
    requires
        well_linked(old, next),
        live(old, nid),
        new.len() == old.len(),
        forall|j: usize| j < old.len() && j != nid ==> #[trigger] new[j as int] == old[j as int],
        new[nid as int] is Some,
        new[nid as int]->0.outputs == old[nid as int]->0.outputs,
        new[nid as int]->0.uid == old[nid as int]->0.uid,
        forall|d: usize|
            #[trigger] count(new[nid as int]->0.inputs@, d) == count(old[nid as int]->0.inputs@, d),
    ensures
        well_linked(new, next),
        fewer(old, new),
{
    assert forall|d: usize, o: usize| #[trigger] out_mult(new, d, o) <= in_mult(new, o, d) && (
    out_mult(new, d, o) > 0 && o != KEEP_ALIVE_NID && o != SCOPE_NID ==> new[o as int]->0.uid
        > new[d as int]->0.uid) && out_mult(new, d, o) <= out_mult(old, d, o) by {
        assert(out_mult(old, d, o) <= in_mult(old, o, d));
        if d < old.len() && d != nid {
            assert(new[d as int] == old[d as int]);
        }
        if o < old.len() && o != nid {
            assert(new[o as int] == old[o as int]);
        }
    }
    assert forall|x: usize| live(new, x) implies (#[trigger] new[x as int])->0.uid < next by {
        if x != nid {
            assert(new[x as int] == old[x as int]);
        }
    }
}

/// A new scope stack in the scope node leaves the edges sound.
pub proof fn lemma_linked_replaced(
    old: Seq<Option<Node>>,
    new: Seq<Option<Node>>,
    stack: Seq<Seq<(Seq<char>, usize)>>,
    next: usize,
)
    requires
        well_linked(old, next),
        stack_replaced(old, new, stack),
    ensures
        well_linked(new, next),
{
    lemma_linked_changed(old, new, SCOPE_NID, next);
}

/// Taking a node off the observers of another, or dropping a node that no
/// node lists as an observer, leaves the edges sound.
pub proof fn lemma_linked_dropped(
    old: Seq<Option<Node>>,
    new: Seq<Option<Node>>,
    nid: usize,
    neigh: usize,
    next: usize,
)
    requires
        well_linked(old, next),
        new.len() == old.len(),
        neigh < old.len(),
        forall|j: usize| j < old.len() && j != neigh ==> #[trigger] new[j as int] == old[j as int],
        match old[neigh as int] {
            Some(o) => {
                ||| new[neigh as int] is None && neigh == nid && forall|d: usize|
                    out_mult(old, d, nid) == 0
                ||| new[neigh as int] is Some && new[neigh as int]->0.same_but_outputs(&o)
                    && new[neigh as int]->0.outputs@ == without(o.outputs@, nid)
            },
            None => new[neigh as int] is None,
        },
    ensures
        well_linked(new, next),
        fewer(old, new),
{
    if old[neigh as int] is Some {
        lemma_without(old[neigh as int]->0.outputs@, nid);
    }
    assert forall|d: usize, o: usize| #[trigger] out_mult(new, d, o) <= in_mult(new, o, d) && (
    out_mult(new, d, o) > 0 && o != KEEP_ALIVE_NID && o != SCOPE_NID ==> new[o as int]->0.uid
        > new[d as int]->0.uid) && out_mult(new, d, o) <= out_mult(old, d, o) by {
        assert(out_mult(old, d, o) <= in_mult(old, o, d));
        assert(out_mult(old, d, nid) <= in_mult(old, nid, d));
        if d < old.len() && d != neigh {
            assert(new[d as int] == old[d as int]);
        }
        if o < old.len() && o != neigh {
            assert(new[o as int] == old[o as int]);
        }
    }
    assert forall|x: usize| live(new, x) implies (#[trigger] new[x as int])->0.uid < next by {
        if x != neigh {
            assert(new[x as int] == old[x as int]);
        }
    }
}

/// A node that is observed lists one observer at least.
pub proof fn lemma_some_observer(s: Seq<usize>)
    requires
        s.len() > 0,
    ensures
        count(s, s[0]) > 0,
{
    lemma_last_index_of(s, s[0]);
    if crate::nodes::graph::last_index_of(s, s[0]) < 0 {
        assert(s[0] != s[0]);
    }
}

/// In a tidy arena with sound edges in which every node but the keep-alive
/// node and the node `target` has an observer, every node reaches the
/// keep-alive node or `target` along edges from nodes to their observers.
pub proof fn lemma_all_reach(g: Seq<Option<Node>>, next: usize, target: usize, x: usize)
    requires
        tidy(g),
        well_linked(g, next),
        forall|n: usize|
            live(g, n) && n != KEEP_ALIVE_NID
                && n != target ==> (#[trigger] g[n as int])->0.outputs@.len()
                > 0,
        live(g, x),
    ensures
        reaches(g, x, target, (next - g[x as int]->0.uid + 1) as nat),
    decreases next - g[x as int]->0.uid,
{
    if x != KEEP_ALIVE_NID && x != target {
        let cell = g[x as int];
        let outputs = g[x as int]->0.outputs@;
        let o = outputs[0];
        lemma_some_observer(outputs);
        assert(out_mult(g, x, o) > 0);
        assert(out_mult(g, x, o) <= in_mult(g, o, x));
        assert(live(g, o));
        let steps = (next - g[x as int]->0.uid) as nat;
        if o == KEEP_ALIVE_NID {
            assert(reaches(g, o, target, steps));
        } else if o == SCOPE_NID {
            let scope = g[SCOPE_NID as int];
            assert(out_mult(g, SCOPE_NID, KEEP_ALIVE_NID) > 0);
            assert(out_mult(g, SCOPE_NID, KEEP_ALIVE_NID) <= in_mult(g, KEEP_ALIVE_NID, SCOPE_NID));
            assert(live(g, KEEP_ALIVE_NID));
            assert(g[x as int]->0.uid < next);
            assert(steps >= 1);
            assert(steps_on(g, SCOPE_NID, KEEP_ALIVE_NID) && reaches(
                g,
                KEEP_ALIVE_NID,
                target,
                (steps - 1) as nat,
            ));
            assert(reaches(g, o, target, steps));
        } else {
            lemma_all_reach(g, next, target, o);
            lemma_reaches_longer(
                g,
                o,
                target,
                (next - g[o as int]->0.uid + 1) as nat,
                steps,
            );
        }
        assert(steps_on(g, x, o) && reaches(g, o, target, steps));
        assert(((steps + 1) - 1) as nat == steps);
    }
}

/// The node `x` is held: it is the keep-alive node, or an input of the
/// keep-alive node or of the scope node.
pub open spec fn held(g: Seq<Option<Node>>, x: usize) -> bool {
    x == KEEP_ALIVE_NID || in_mult(g, KEEP_ALIVE_NID, x) > 0 || in_mult(g, SCOPE_NID, x) > 0
}

/// From the node `x` the node `target` or a held node is reached along at
/// most `steps` edges, each from a node to one of its observers, none of
/// which is the keep-alive node or the scope node.
pub open spec fn leads(g: Seq<Option<Node>>, x: usize, target: usize, steps: nat) -> bool
    decreases steps,
{
    if x == target || held(g, x) {
        true
    } else if steps == 0 {
        false
    } else {
        exists|o: usize| #[trigger]
            steps_on(g, x, o) && o != KEEP_ALIVE_NID && o != SCOPE_NID && leads(
                g,
                o,
                target,
                (steps - 1) as nat,
            )
    }
}

/// What is led to along some edges is led to along more.
pub proof fn lemma_leads_longer(
    g: Seq<Option<Node>>,
    x: usize,
    target: usize,
    steps: nat,
    more: nat,
)
    requires
        leads(g, x, target, steps),
        steps <= more,
    ensures
        leads(g, x, target, more),
    decreases steps,
{
    if x != target && !held(g, x) {
        let o = choose|o: usize| #[trigger]
            steps_on(g, x, o) && o != KEEP_ALIVE_NID && o != SCOPE_NID && leads(
                g,
                o,
                target,
                (steps - 1) as nat,
            );
        lemma_leads_longer(g, o, target, (steps - 1) as nat, (more - 1) as nat);
        assert(steps_on(g, x, o) && o != KEEP_ALIVE_NID && o != SCOPE_NID && leads(
            g,
            o,
            target,
            (more - 1) as nat,
        ));
    }
}

/// In an arena with sound edges in which every node but the keep-alive node
/// and the node `target` has an observer, every node leads to `target` or to
/// a held node: nothing is there but what the result needs and what is held,
/// with what that needs.
pub proof fn lemma_all_lead(g: Seq<Option<Node>>, next: usize, target: usize, x: usize)
    requires
        well_linked(g, next),
        forall|n: usize|
            live(g, n) && n != KEEP_ALIVE_NID
                && n != target ==> (#[trigger] g[n as int])->0.outputs@.len()
                > 0,
        live(g, x),
    ensures
        leads(g, x, target, (next - g[x as int]->0.uid + 1) as nat),
    decreases next - g[x as int]->0.uid,
{
    if x != target && !held(g, x) {
        let cell = g[x as int];
        let outputs = g[x as int]->0.outputs@;
        let o = outputs[0];
        lemma_some_observer(outputs);
        assert(out_mult(g, x, o) > 0);
        assert(out_mult(g, x, o) <= in_mult(g, o, x));
        assert(live(g, o));
        let steps = (next - g[x as int]->0.uid) as nat;
        lemma_all_lead(g, next, target, o);
        lemma_leads_longer(g, o, target, (next - g[o as int]->0.uid + 1) as nat, steps);
        assert(steps_on(g, x, o) && o != KEEP_ALIVE_NID && o != SCOPE_NID && leads(
            g,
            o,
            target,
            steps,
        ));
        assert(((steps + 1) - 1) as nat == steps);
    }
}

/// From the node `x` the node `target` is reached along at most `steps`
/// edges, each from a node to one of its observers: `target` needs `x`.
pub open spec fn serves(g: Seq<Option<Node>>, x: usize, target: usize, steps: nat) -> bool
    decreases steps,
{
    if x == target {
        true
    } else if steps == 0 {
        false
    } else {
        exists|o: usize| #[trigger] steps_on(g, x, o) && serves(g, o, target, (steps - 1) as nat)
    }
}

/// Where nothing is held but the keep-alive node, the scope node and a start
/// node without inputs, as in the arena of a program that was parsed from a
/// new parser, a node that leads to `target` or to a held node is one of
/// these three or serves `target`: nothing else is left.
pub proof fn lemma_only_result_left(
    g: Seq<Option<Node>>,
    next: usize,
    target: usize,
    x: usize,
    steps: nat,
)
    requires
        well_linked(g, next),
        leads(g, x, target, steps),
        forall|y: usize| held(g, y) ==> y == KEEP_ALIVE_NID || y == SCOPE_NID || y == START_NID,
        live(g, START_NID) ==> g[START_NID as int]->0.inputs@.len() == 0,
        x != KEEP_ALIVE_NID && x != SCOPE_NID && x != START_NID,
    ensures
        serves(g, x, target, steps),
    decreases steps,
{
    if x != target {
        assert(!held(g, x));
        let o = choose|o: usize| #[trigger]
            steps_on(g, x, o) && o != KEEP_ALIVE_NID && o != SCOPE_NID && leads(
                g,
                o,
                target,
                (steps - 1) as nat,
            );
        assert(out_mult(g, x, o) <= in_mult(g, o, x));
        if o == START_NID {
            assert(g[START_NID as int]->0.inputs@ =~= Seq::<usize>::empty());
        }
        lemma_only_result_left(g, next, target, o, (steps - 1) as nat);
        assert(steps_on(g, x, o) && serves(g, o, target, (steps - 1) as nat));
    }
}

/// What is reached along some edges is reached along more.
pub proof fn lemma_reaches_longer(
    g: Seq<Option<Node>>,
    x: usize,
    target: usize,
    steps: nat,
    more: nat,
)
    requires
        reaches(g, x, target, steps),
        steps <= more,
    ensures
        reaches(g, x, target, more),
    decreases steps,
{
    if x != KEEP_ALIVE_NID && x != target {
        let o = choose|o: usize| #[trigger]
            steps_on(g, x, o) && reaches(g, o, target, (steps - 1) as nat);
        lemma_reaches_longer(g, o, target, (steps - 1) as nat, (more - 1) as nat);
        assert(steps_on(g, x, o) && reaches(g, o, target, (more - 1) as nat));
    }
}

impl Graph {
    /// The edges of the arena are sound.
    pub open spec fn linked(&self) -> bool {
        well_linked(self@, self.next_uid())
    }
}

impl Parser {
    /// If the edges of the arena of `before` were sound, those of this parser are.
    pub open spec fn linked_from(&self, before: &Parser) -> bool {
        before.graph.linked() ==> self.graph.linked()
    }
}

} // verus!
