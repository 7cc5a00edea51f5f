use crate::errors::son_error::SoNError;
use crate::nodes::graph::{count, edge_added, edge_removed, live, live_count, out_mult, without};
use crate::nodes::node::Node;
use crate::services::links::{
    fewer, lemma_linked_added, lemma_linked_dropped, lemma_linked_removed, well_linked,
};
use crate::services::parser::{KEEP_ALIVE_NID, Parser, SCOPE_NID};
use crate::services::scope::{
    anchored, lemma_pin_moved, lemma_scope_pinned, lemma_scope_released, pin_moved, pins_held,
    pins_moved, scope_kept,
};
use vstd::prelude::*;

verus! {

/// Number of nodes that one sweep of the collector may drop.
pub const SWEEP_CAP: usize = 100;

/// The collector may drop the node in slot `n`: nothing observes it, and it is
/// not the keep-alive node.
pub open spec fn droppable(g: Seq<Option<Node>>, n: usize) -> bool {
    n != KEEP_ALIVE_NID && live(g, n) && g[n as int]->0.outputs@.len() == 0
}

/// `new` is what a collection can leave of `old`: no slot is filled anew, a node
/// that is still there has lost observers at most, and the keep-alive node
/// and what it observes are all still there, with the keep-alive node
/// among their observers as often as before.
pub open spec fn collected(old: Seq<Option<Node>>, new: Seq<Option<Node>>) -> bool {
    &&& new.len() == old.len()
    &&& forall|j: usize|
        j < old.len() ==> match #[trigger] new[j as int] {
            Some(n) => {
                &&& old[j as int] is Some
                &&& n.same_but_outputs(&old[j as int]->0)
                &&& n.outputs@.len() <= old[j as int]->0.outputs@.len()
                &&& count(n.outputs@, KEEP_ALIVE_NID) == count(
                    old[j as int]->0.outputs@,
                    KEEP_ALIVE_NID,
                )
            },
            None => old[j as int] is Some ==> j != KEEP_ALIVE_NID && count(
                old[j as int]->0.outputs@,
                KEEP_ALIVE_NID,
            ) == 0,
        }
}

/// `new` is what is left of `old` after the nodes of `gone` were detached:
/// each of them was a node other than the keep-alive node, observed by
/// nodes of `gone` only, and is now dropped or unobserved; no other node was
/// dropped, and no node has lost an observer outside `gone`.
pub open spec fn swept(old: Seq<Option<Node>>, new: Seq<Option<Node>>, gone: Set<usize>) -> bool {
    &&& new.len() == old.len()
    &&& forall|d: usize| #[trigger]
        gone.contains(d) ==> d != KEEP_ALIVE_NID && live(old, d) && (live(new, d)
            ==> new[d as int]->0.outputs@.len() == 0)
    &&& forall|d: usize, k: usize|
        gone.contains(d) && #[trigger] out_mult(old, d, k) > 0 ==> gone.contains(k)
    &&& forall|j: usize, k: usize|
        live(new, j) && !gone.contains(k) ==> #[trigger] out_mult(new, j, k) == out_mult(old, j, k)
    &&& forall|j: usize| live(old, j) && !live(new, j) ==> #[trigger] gone.contains(j)
}

/// One collection after another is a collection.
pub proof fn lemma_swept_compose(
    a: Seq<Option<Node>>,
    b: Seq<Option<Node>>,
    c: Seq<Option<Node>>,
    first: Set<usize>,
    second: Set<usize>,
)
    requires
        collected(a, b),
        collected(b, c),
        swept(a, b, first),
        swept(b, c, second),
    ensures
        swept(a, c, first.union(second)),
{
    let gone = first.union(second);
    assert forall|d: usize| #[trigger] gone.contains(d) implies d != KEEP_ALIVE_NID && live(a, d)
        && (live(c, d) ==> c[d as int]->0.outputs@.len() == 0) by {
        let x = b[d as int];
        let y = c[d as int];
        if first.contains(d) {
        } else {
            assert(second.contains(d));
        }
    }
    assert forall|d: usize, k: usize|
        gone.contains(d) && #[trigger] out_mult(a, d, k) > 0 implies gone.contains(k) by {
        if first.contains(d) {
        } else {
            assert(second.contains(d));
            assert(live(b, d));
            if !first.contains(k) {
                assert(out_mult(b, d, k) == out_mult(a, d, k));
            }
        }
    }
    assert forall|j: usize, k: usize| live(c, j) && !gone.contains(k) implies #[trigger] out_mult(
        c,
        j,
        k,
    ) == out_mult(a, j, k) by {
        let x = c[j as int];
        assert(live(b, j));
        assert(out_mult(c, j, k) == out_mult(b, j, k));
        assert(out_mult(b, j, k) == out_mult(a, j, k));
    }
    assert forall|j: usize| live(a, j) && !live(c, j) implies #[trigger] gone.contains(j) by {
        if !live(b, j) {
            assert(first.contains(j));
        } else {
            assert(second.contains(j));
        }
    }
}

/// Taking a node of `gone` off the observers of a node, or dropping it,
/// leaves a collection a collection.
pub proof fn lemma_swept_step(
    old: Seq<Option<Node>>,
    before: Seq<Option<Node>>,
    after: Seq<Option<Node>>,
    gone: Set<usize>,
    nid: usize,
    neigh: usize,
)
    requires
        swept(old, before, gone),
        gone.contains(nid),
        after.len() == before.len(),
        neigh < before.len(),
        forall|j: usize|
            j < before.len() && j != neigh ==> #[trigger] after[j as int] == before[j as int],
        match before[neigh as int] {
            Some(o) => {
                ||| after[neigh as int] is None && neigh == nid
                ||| after[neigh as int] is Some && after[neigh as int]->0.outputs@ == without(
                    o.outputs@,
                    nid,
                )
            },
            None => after[neigh as int] is None,
        },
    ensures
        swept(old, after, gone),
{
    if before[neigh as int] is Some {
        crate::nodes::graph::lemma_without(before[neigh as int]->0.outputs@, nid);
    }
    assert forall|d: usize| #[trigger] gone.contains(d) implies d != KEEP_ALIVE_NID && live(old, d)
        && (live(after, d) ==> after[d as int]->0.outputs@.len() == 0) by {
        if d != neigh {
            assert(after[d as int] == before[d as int]);
        }
    }
    assert forall|j: usize, k: usize|
        live(after, j) && !gone.contains(k) implies #[trigger] out_mult(after, j, k) == out_mult(
        old,
        j,
        k,
    ) by {
        if j != neigh {
            assert(after[j as int] == before[j as int]);
        }
        assert(out_mult(before, j, k) == out_mult(old, j, k));
    }
    assert forall|j: usize| live(old, j) && !live(after, j) implies #[trigger] gone.contains(j) by {
        if j != neigh {
            assert(after[j as int] == before[j as int]);
        }
    }
}

/// A collection drops no node that the scope node observes, as long as the
/// keep-alive node pins the scope node, and the scope node goes on observing
/// it as often.
pub proof fn lemma_swept_keeps_scope(
    old: Seq<Option<Node>>,
    new: Seq<Option<Node>>,
    gone: Set<usize>,
)
    requires
        collected(old, new),
        swept(old, new, gone),
    ensures
        scope_kept(old, new),
{
    if anchored(old) {
        let keep = new[KEEP_ALIVE_NID as int];
        let scope = new[SCOPE_NID as int];
        assert(out_mult(old, SCOPE_NID, KEEP_ALIVE_NID) > 0);
        assert(!gone.contains(KEEP_ALIVE_NID));
        assert(!gone.contains(SCOPE_NID));
        assert forall|x: usize| out_mult(old, x, SCOPE_NID) > 0 implies #[trigger] out_mult(
            new,
            x,
            SCOPE_NID,
        ) == out_mult(old, x, SCOPE_NID) by {
            assert(!gone.contains(x));
            assert(live(new, x));
        }
    }
}

/// An arena is what a collection that drops nothing leaves of it.
pub proof fn lemma_collected_reflexive(a: Seq<Option<Node>>)
    ensures
        collected(a, a),
{
}

/// One collection after another leaves what one collection can leave.
pub proof fn lemma_collected_transitive(
    a: Seq<Option<Node>>,
    b: Seq<Option<Node>>,
    c: Seq<Option<Node>>,
)
    requires
        collected(a, b),
        collected(b, c),
    ensures
        collected(a, c),
{
    assert forall|j: usize| j < a.len() implies match #[trigger] c[j as int] {
        Some(n) => {
            &&& a[j as int] is Some
            &&& n.same_but_outputs(&a[j as int]->0)
            &&& n.outputs@.len() <= a[j as int]->0.outputs@.len()
            &&& count(n.outputs@, KEEP_ALIVE_NID) == count(a[j as int]->0.outputs@, KEEP_ALIVE_NID)
        },
        None => a[j as int] is Some ==> j != KEEP_ALIVE_NID && count(
            a[j as int]->0.outputs@,
            KEEP_ALIVE_NID,
        ) == 0,
    } by {
        let x = b[j as int];
    }
}

impl Parser {
    /// One sweep of the collector over all slots, which drops at most `cap`
    /// nodes; returns how many it dropped.
    ///
    /// A sweep that drops nothing changes nothing, and then, unless `cap` is 0,
    /// there was nothing to drop: every node but the keep-alive node has an
    /// observer.
    pub fn drop_unused_nodes_cap(&mut self, cap: usize) -> (r: usize)
        ensures
            final(self).same_but_graph(old(self)),
            final(self).grows_from(old(self)),
            r <= cap,
            collected(old(self).graph@, final(self).graph@),
            exists|gone: Set<usize>| swept(old(self).graph@, final(self).graph@, gone),
            scope_kept(old(self).graph@, final(self).graph@),
            pins_held(old(self).graph@, final(self).graph@),
            final(self).linked_from(old(self)),
            fewer(old(self).graph@, final(self).graph@),
            live_count(final(self).graph@) + r == live_count(old(self).graph@),
            r == 0 ==> final(self).graph@ == old(self).graph@,
            r == 0 && cap > 0 ==> forall|n: usize| !droppable(final(self).graph@, n),
    {
        let initial_cap = cap;
        let mut cap = cap;
        let len = self.graph.len();
        let mut nid: usize = 0;
        let ghost mut gone: Set<usize> = Set::empty();
        proof {
            lemma_collected_reflexive(self.graph@);
        }
        while nid < len
            invariant
                nid <= len,
                len == self.graph@.len(),
                self.same_but_graph(old(self)),
                cap <= initial_cap,
                collected(old(self).graph@, self.graph@),
                swept(old(self).graph@, self.graph@, gone),
                self.linked_from(old(self)),
                fewer(old(self).graph@, self.graph@),
                live_count(self.graph@) + (initial_cap - cap) == live_count(old(self).graph@),
                cap == initial_cap ==> self.graph@ == old(self).graph@,
                cap == initial_cap && cap > 0 ==> forall|n: usize|
                    n < nid ==> !droppable(self.graph@, n),
            decreases len - nid,
        {
            let ghost before = self.graph@;
            let dropped = self.attempt_drop_node(nid, cap);
            proof {
                lemma_collected_transitive(old(self).graph@, before, self.graph@);
                let more = choose|more: Set<usize>| swept(before, self.graph@, more);
                lemma_swept_compose(old(self).graph@, before, self.graph@, gone, more);
                gone = gone.union(more);
            }
            cap -= dropped;
            nid += 1;
        }
        proof {
            lemma_swept_keeps_scope(old(self).graph@, self.graph@, gone);
        }
        initial_cap - cap
    }

    /// Drops the node in slot `nid` if nothing observes it, after the nodes
    /// among its inputs that it was the last observer of, as far as the budget
    /// `cap` reaches; returns how many nodes it dropped.  The keep-alive node
    /// is never dropped.
    pub fn attempt_drop_node(&mut self, nid: usize, cap: usize) -> (r: usize)
        ensures
            final(self).same_but_graph(old(self)),
            final(self).grows_from(old(self)),
            r <= cap,
            collected(old(self).graph@, final(self).graph@),
            exists|gone: Set<usize>| swept(old(self).graph@, final(self).graph@, gone),
            scope_kept(old(self).graph@, final(self).graph@),
            pins_held(old(self).graph@, final(self).graph@),
            final(self).linked_from(old(self)),
            fewer(old(self).graph@, final(self).graph@),
            live_count(final(self).graph@) + r == live_count(old(self).graph@),
            r == 0 ==> final(self).graph@ == old(self).graph@,
            cap > 0 && droppable(old(self).graph@, nid) ==> r >= 1,
    {
        let depth = self.graph.len();
        self.attempt_drop_at(nid, cap, depth)
    }

    /// As `attempt_drop_node`, following inputs to the depth `depth` only: in
    /// an arena of that many slots no path without a cycle is longer.
    fn attempt_drop_at(&mut self, nid: usize, cap: usize, depth: usize) -> (r: usize)
        ensures
            final(self).same_but_graph(old(self)),
            final(self).grows_from(old(self)),
            r <= cap,
            collected(old(self).graph@, final(self).graph@),
            exists|gone: Set<usize>| swept(old(self).graph@, final(self).graph@, gone),
            scope_kept(old(self).graph@, final(self).graph@),
            pins_held(old(self).graph@, final(self).graph@),
            final(self).linked_from(old(self)),
            fewer(old(self).graph@, final(self).graph@),
            live_count(final(self).graph@) + r == live_count(old(self).graph@),
            r == 0 ==> final(self).graph@ == old(self).graph@,
            cap > 0 && depth > 0 && droppable(old(self).graph@, nid) ==> r >= 1,
        decreases depth,
    {
        proof {
            lemma_collected_reflexive(self.graph@);
            assert(swept(self.graph@, self.graph@, Set::<usize>::empty()));
            lemma_swept_keeps_scope(self.graph@, self.graph@, Set::<usize>::empty());
        }
        if nid == KEEP_ALIVE_NID || cap == 0 || depth == 0 {
            return 0;
        }
        let inputs = match self.graph.get_node(nid) {
            Ok(node) => {
                if node.outputs.len() != 0 {
                    return 0;
                }
                node.inputs.clone()
            },
            Err(_) => {
                return 0;
            },
        };
        let mut c = cap;
        let mut k: usize = 0;
        assert(inputs@ =~= old(self).graph@[nid as int]->0.inputs@);
        let ghost mut gone: Set<usize> = set![nid];
        assert(swept(self.graph@, self.graph@, gone));
        while k < inputs.len()
            invariant
                k <= inputs@.len(),
                nid != KEEP_ALIVE_NID,
                depth > 0,
                self.same_but_graph(old(self)),
                c <= cap,
                collected(old(self).graph@, self.graph@),
                swept(old(self).graph@, self.graph@, gone),
                gone.contains(nid),
                inputs@ == old(self).graph@[nid as int]->0.inputs@,
                live(old(self).graph@, nid),
                self.linked_from(old(self)),
                fewer(old(self).graph@, self.graph@),
                forall|i: int|
                    0 <= i < k ==> out_mult(self.graph@, #[trigger] inputs@[i], nid) == 0,
                live_count(self.graph@) + (cap - c) == live_count(old(self).graph@),
                c == cap ==> droppable(self.graph@, nid),
            decreases inputs.len() - k,
        {
            let neigh = inputs[k];
            let ghost before = self.graph@;
            match self.graph.get_node_mut(neigh) {
                Ok(n) => {
                    proof {
                        crate::nodes::graph::lemma_without(n.outputs@, nid);
                    }
                    crate::nodes::graph::remove_all(&mut n.outputs, nid);
                },
                Err(_) => {},
            }
            let ghost detached = self.graph@;
            proof {
                if live(before, neigh) {
                    crate::nodes::graph::lemma_live_count_update(
                        before,
                        neigh as int,
                        detached[neigh as int],
                    );
                    assert(collected(before, detached)) by {
                        assert forall|j: usize| j < before.len()
                            implies match #[trigger] detached[j as int] {
                            Some(n) => {
                                &&& before[j as int] is Some
                                &&& n.same_but_outputs(&before[j as int]->0)
                                &&& n.outputs@.len() <= before[j as int]->0.outputs@.len()
                                &&& count(n.outputs@, KEEP_ALIVE_NID) == count(
                                    before[j as int]->0.outputs@,
                                    KEEP_ALIVE_NID,
                                )
                            },
                            None => before[j as int] is Some ==> j != KEEP_ALIVE_NID && count(
                                before[j as int]->0.outputs@,
                                KEEP_ALIVE_NID,
                            ) == 0,
                        } by {}
                    }
                } else {
                    lemma_collected_reflexive(before);
                }
                lemma_collected_transitive(old(self).graph@, before, detached);
                if live(before, neigh) {
                    lemma_swept_step(old(self).graph@, before, detached, gone, nid, neigh);
                    crate::nodes::graph::lemma_without(before[neigh as int]->0.outputs@, nid);
                    if well_linked(before, self.graph.next_uid()) {
                        lemma_linked_dropped(before, detached, nid, neigh, self.graph.next_uid());
                    }
                    assert(fewer(before, detached)) by {
                        assert forall|d: usize, o: usize| #[trigger] out_mult(detached, d, o)
                            <= out_mult(before, d, o) by {
                            if d != neigh && d < before.len() {
                                assert(detached[d as int] == before[d as int]);
                            }
                        }
                    }
                }
                assert(out_mult(detached, neigh, nid) == 0);
            }
            let dropped = self.attempt_drop_at(neigh, c, depth - 1);
            proof {
                assert forall|i: int| 0 <= i < k + 1 implies out_mult(
                    self.graph@,
                    #[trigger] inputs@[i],
                    nid,
                ) == 0 by {
                    assert(out_mult(self.graph@, inputs@[i], nid) <= out_mult(
                        detached,
                        inputs@[i],
                        nid,
                    ));
                    assert(out_mult(detached, inputs@[i], nid)
                        <= out_mult(before, inputs@[i], nid));
                }
                let more = choose|more: Set<usize>| swept(detached, self.graph@, more);
                lemma_swept_compose(old(self).graph@, detached, self.graph@, gone, more);
                gone = gone.union(more);
                lemma_collected_transitive(old(self).graph@, detached, self.graph@);
            }
            c -= dropped;
            k += 1;
        }
        if c > 0 {
            let unobserved = match self.graph.get_node(nid) {
                Ok(node) => node.outputs.len() == 0,
                Err(_) => false,
            };
            if unobserved {
                let ghost before = self.graph@;
                match self.graph.get_mut(nid) {
                    Some(cell) => {
                        *cell = None;
                    },
                    None => {},
                }
                proof {
                    crate::nodes::graph::lemma_live_count_update(before, nid as int, None);
                    assert(collected(before, self.graph@)) by {
                        assert forall|j: usize| j < before.len()
                            implies match #[trigger] self.graph@[j as int] {
                            Some(n) => {
                                &&& before[j as int] is Some
                                &&& n.same_but_outputs(&before[j as int]->0)
                                &&& n.outputs@.len() <= before[j as int]->0.outputs@.len()
                                &&& count(n.outputs@, KEEP_ALIVE_NID) == count(
                                    before[j as int]->0.outputs@,
                                    KEEP_ALIVE_NID,
                                )
                            },
                            None => before[j as int] is Some ==> j != KEEP_ALIVE_NID && count(
                                before[j as int]->0.outputs@,
                                KEEP_ALIVE_NID,
                            ) == 0,
                        } by {}
                    }
                    lemma_swept_step(old(self).graph@, before, self.graph@, gone, nid, nid);
                    if well_linked(before, self.graph.next_uid()) {
                        assert forall|d: usize| out_mult(before, d, nid) == 0 by {
                            assert(out_mult(before, d, nid) <= crate::nodes::graph::in_mult(
                                before,
                                nid,
                                d,
                            ));
                            if count(inputs@, d) > 0 {
                                crate::nodes::graph::lemma_last_index_of(inputs@, d);
                                let i = crate::nodes::graph::last_index_of(inputs@, d);
                                assert(out_mult(before, inputs@[i], nid) == 0);
                            }
                        }
                        lemma_linked_dropped(before, self.graph@, nid, nid, self.graph.next_uid());
                    }
                    assert(fewer(before, self.graph@)) by {
                        assert forall|d: usize, o: usize| #[trigger] out_mult(self.graph@, d, o)
                            <= out_mult(before, d, o) by {
                            if d != nid && d < before.len() {
                                assert(self.graph@[d as int] == before[d as int]);
                            }
                        }
                    }
                    lemma_collected_transitive(old(self).graph@, before, self.graph@);
                }
                c -= 1;
            }
        }
        proof {
            lemma_swept_keeps_scope(old(self).graph@, self.graph@, gone);
        }
        cap - c
    }

    /// One sweep of the collector with the usual budget.
    pub fn drop_unused_nodes(&mut self) -> (r: usize)
        ensures
            final(self).same_but_graph(old(self)),
            final(self).grows_from(old(self)),
            r <= SWEEP_CAP,
            collected(old(self).graph@, final(self).graph@),
            exists|gone: Set<usize>| swept(old(self).graph@, final(self).graph@, gone),
            scope_kept(old(self).graph@, final(self).graph@),
            pins_held(old(self).graph@, final(self).graph@),
            final(self).linked_from(old(self)),
            fewer(old(self).graph@, final(self).graph@),
            live_count(final(self).graph@) + r == live_count(old(self).graph@),
            r == 0 ==> final(self).graph@ == old(self).graph@,
            r == 0 ==> forall|n: usize| !droppable(final(self).graph@, n),
    {
        self.drop_unused_nodes_cap(SWEEP_CAP)
    }

    /// Releases the pin on `node` that was set while `result` was computed, and
    /// hands `result` on; a failure to release takes precedence.
    pub fn release(&mut self, node: usize, result: Result<usize, SoNError>) -> (r: Result<
        usize,
        SoNError,
    >)
        ensures
            final(self).same_but_graph(old(self)),
            final(self).grows_from(old(self)),
            old(self).graph.wf() ==> final(self).graph.wf(),
            final(self).linked_from(old(self)),
            match old(self).unkeep_outcome(node) {
                true => r == result && edge_removed(
                    old(self).graph@,
                    final(self).graph@,
                    KEEP_ALIVE_NID,
                    node,
                ) && pins_moved(old(self).graph@, final(self).graph@, node, false) && pin_moved(
                    old(self).graph@,
                    final(self).graph@,
                    node,
                    false,
                ),
                false => r is Err && r->Err_0 is NodeIdNotExisting
                    && final(self).graph@ == old(self).graph@,
            },
    {
        match self.unkeep_node(node) {
            Ok(_) => result,
            Err(e) => Err(e),
        }
    }

    /// Whether a pin on `node` can be released: the node and the keep-alive
    /// node both exist.
    pub open spec fn unkeep_outcome(&self, node: usize) -> bool {
        live(self.graph@, KEEP_ALIVE_NID) && live(self.graph@, node)
    }

    /// Pins the node `nid`: the keep-alive node depends on it from now on.
    pub fn keep_node(&mut self, nid: usize) -> (r: Result<(), SoNError>)
        ensures
            final(self).same_but_graph(old(self)),
            final(self).grows_from(old(self)),
            old(self).graph.wf() ==> final(self).graph.wf(),
            final(self).linked_from(old(self)),
            match r {
                Ok(_) => live(old(self).graph@, KEEP_ALIVE_NID) && live(old(self).graph@, nid)
                    && edge_added(old(self).graph@, final(self).graph@, KEEP_ALIVE_NID, nid)
                    && pins_moved(old(self).graph@, final(self).graph@, nid, true) && pin_moved(
                    old(self).graph@,
                    final(self).graph@,
                    nid,
                    true,
                ),
                Err(e) => e is NodeIdNotExisting && !(live(old(self).graph@, KEEP_ALIVE_NID)
                    && live(old(self).graph@, nid)) && final(self).graph@ == old(self).graph@,
            },
    {
        let r = self.graph.add_dependency_br(KEEP_ALIVE_NID, nid);
        proof {
            if r is Ok {
                lemma_scope_pinned(old(self).graph@, self.graph@, nid);
                lemma_pin_moved(old(self).graph@, self.graph@, nid, true);
                if old(self).graph.linked() {
                    lemma_linked_added(
                        old(self).graph@,
                        self.graph@,
                        KEEP_ALIVE_NID,
                        nid,
                        self.graph.next_uid(),
                    );
                }
            }
        }
        r
    }

    /// Releases one pin of the node `nid`.
    pub fn unkeep_node(&mut self, nid: usize) -> (r: Result<(), SoNError>)
        ensures
            final(self).same_but_graph(old(self)),
            final(self).grows_from(old(self)),
            old(self).graph.wf() ==> final(self).graph.wf(),
            final(self).linked_from(old(self)),
            match r {
                Ok(_) => live(old(self).graph@, KEEP_ALIVE_NID) && live(old(self).graph@, nid)
                    && edge_removed(old(self).graph@, final(self).graph@, KEEP_ALIVE_NID, nid)
                    && pins_moved(old(self).graph@, final(self).graph@, nid, false) && pin_moved(
                    old(self).graph@,
                    final(self).graph@,
                    nid,
                    false,
                ),
                Err(e) => e is NodeIdNotExisting && !(live(old(self).graph@, KEEP_ALIVE_NID)
                    && live(old(self).graph@, nid)) && final(self).graph@ == old(self).graph@,
            },
    {
        let r = self.graph.remove_dependency_br(KEEP_ALIVE_NID, nid);
        proof {
            if r is Ok {
                lemma_scope_released(old(self).graph@, self.graph@, nid);
                lemma_pin_moved(old(self).graph@, self.graph@, nid, false);
                if old(self).graph.linked() {
                    lemma_linked_removed(
                        old(self).graph@,
                        self.graph@,
                        KEEP_ALIVE_NID,
                        nid,
                        self.graph.next_uid(),
                    );
                }
            }
        }
        r
    }
}

} // verus!
