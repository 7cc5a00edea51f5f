use crate::errors::son_error::SoNError;
use crate::nodes::graph::{
    all_live, count, edge_added, edge_removed, in_mult, inserted, last_index_of, lemma_count_push,
    lemma_refined_typ_reads, live, out_mult, remove_last,
};
use crate::nodes::node::{Node, NodeKind};
use crate::services::collector::{collected, lemma_collected_reflexive};
use crate::services::links::{lemma_linked_inserted, well_linked};
use crate::services::node_idealizer::{Rewrite, rewrite_spec, rewritten_by};
use crate::services::parser::{KEEP_ALIVE_NID, Parser, SCOPE_NID};
use crate::services::scope::{
    anchored, bonds_kept, constant_node, lemma_scope_pinned, lemma_scope_released, pins_held, scope_kept,
    scope_stack,
};
use crate::services::typ_refiner::{refined_from, refiner_reads};
use crate::typ::typ::{Typ, TypV};
use vstd::prelude::*;

verus! {

/// Depth to which one rewrite may set off further rewrites; below it a node
/// is left as it stands.
pub const REWRITE_DEPTH: usize = 512;

/// The node `new` is the node `old` but for its edges and, in the scope
/// node, its scope stack: kind, unique id, slot and type are the same.
pub open spec fn same_node(old: Node, new: Node) -> bool {
    &&& new.node_kind.same_operation(old.node_kind)
    &&& new.uid == old.uid
    &&& new.nid == old.nid
    &&& new.typ@ == old.typ@
}

/// Every node of `new` is a node of `old` in the same slot, with the same
/// kind, unique id and type; only its edges may differ.
pub open spec fn retained(old: Seq<Option<Node>>, new: Seq<Option<Node>>) -> bool {
    &&& new.len() == old.len()
    &&& forall|j: usize|
        j < old.len() && (#[trigger] new[j as int]) is Some ==> old[j as int] is Some
            && same_node(old[j as int]->0, new[j as int]->0)
}

/// Every node of `new` either has a unique id of `bound` or above, or is a
/// node of `old` in the same slot, with the same kind, unique id and type.
/// With `bound` the next unique id of `old`, the former are the nodes made
/// since: no node changes its type once it is made.
pub open spec fn grown(old: Seq<Option<Node>>, new: Seq<Option<Node>>, bound: usize) -> bool {
    forall|j: usize|
        live(new, j) ==> (#[trigger] new[j as int])->0.uid >= bound || (live(old, j) && same_node(
            old[j as int]->0,
            new[j as int]->0,
        ))
}

/// What is retained of what was retained is retained.
pub proof fn lemma_retained_transitive(
    a: Seq<Option<Node>>,
    b: Seq<Option<Node>>,
    c: Seq<Option<Node>>,
)
    requires
        retained(a, b),
        retained(b, c),
    ensures
        retained(a, c),
{
    assert forall|j: usize| j < a.len() && (#[trigger] c[j as int]) is Some implies a[j as int]
        is Some && same_node(a[j as int]->0, c[j as int]->0) by {
        let x = b[j as int];
    }
}

/// Adding an edge, removing an edge and collecting leave every node that is
/// still there with its kind, unique id and type.
pub proof fn lemma_retained(old: Seq<Option<Node>>, new: Seq<Option<Node>>, user: usize, def: usize)
    requires
        live(old, user) && live(old, def) && (edge_added(old, new, user, def) || edge_removed(
            old,
            new,
            user,
            def,
        )) || collected(old, new),
    ensures
        retained(old, new),
{
    assert forall|j: usize| j < old.len()
        && (#[trigger] new[j as int]) is Some implies old[j as int]
        is Some && same_node(old[j as int]->0, new[j as int]->0) by {
        let x = old[j as int];
    }
}

/// A part of a list holds a value no more often than the whole list.
pub proof fn lemma_count_take(s: Seq<usize>, k: int, x: usize)
    requires
        0 <= k <= s.len(),
    ensures
        count(s.take(k), x) <= count(s, x),
    decreases s.len() - k,
{
    if k < s.len() {
        lemma_count_take(s, k + 1, x);
        assert(s.take(k + 1) =~= s.take(k).push(s[k]));
        lemma_count_push(s.take(k), s[k], x);
    } else {
        assert(s.take(k) =~= s);
    }
}

/// Creating a node releases no pin.
pub proof fn lemma_inserted_holds_pins(
    old: Seq<Option<Node>>,
    new: Seq<Option<Node>>,
    index: usize,
    inputs: Seq<usize>,
    kind: NodeKind,
    uid: usize,
    typ: TypV,
)
    requires
        inserted(old, new, index, inputs, kind, uid, typ),
        !live(old, index),
    ensures
        pins_held(old, new),
{
    assert forall|x: usize| out_mult(old, x, KEEP_ALIVE_NID) > 0 implies #[trigger] out_mult(
        new,
        x,
        KEEP_ALIVE_NID,
    ) >= out_mult(old, x, KEEP_ALIVE_NID) by {
        let cell = old[x as int];
        crate::nodes::graph::lemma_count_append_repeat(
            old[x as int]->0.outputs@,
            index,
            count(inputs, x),
            KEEP_ALIVE_NID,
        );
    }
    if live(old, KEEP_ALIVE_NID) {
        let cell = old[KEEP_ALIVE_NID as int];
    }
}

/// Creating a node keeps the keep-alive node, the scope stack and the pins of
/// the scope node.
pub proof fn lemma_inserted_keeps_scope(
    old: Seq<Option<Node>>,
    new: Seq<Option<Node>>,
    index: usize,
    inputs: Seq<usize>,
    kind: NodeKind,
    uid: usize,
    typ: TypV,
)
    requires
        inserted(old, new, index, inputs, kind, uid, typ),
        !live(old, index),
    ensures
        scope_kept(old, new),
{
    if anchored(old) {
        let keep = old[KEEP_ALIVE_NID as int];
        let scope = old[SCOPE_NID as int];
        crate::nodes::graph::lemma_count_append_repeat(
            old[SCOPE_NID as int]->0.outputs@,
            index,
            count(inputs, SCOPE_NID),
            KEEP_ALIVE_NID,
        );
        assert forall|x: usize| out_mult(old, x, SCOPE_NID) > 0 implies #[trigger] out_mult(
            new,
            x,
            SCOPE_NID,
        ) == out_mult(old, x, SCOPE_NID) by {
            let cell = old[x as int];
            crate::nodes::graph::lemma_count_append_repeat(
                old[x as int]->0.outputs@,
                index,
                count(inputs, x),
                SCOPE_NID,
            );
        }
    }
}

/// Creating a node in what is left of `old` makes `new` grow out of `old`.
pub proof fn lemma_grown_inserted(
    old: Seq<Option<Node>>,
    mid: Seq<Option<Node>>,
    new: Seq<Option<Node>>,
    index: usize,
    inputs: Seq<usize>,
    kind: NodeKind,
    typ: TypV,
    bound: usize,
)
    requires
        retained(old, mid),
        inserted(mid, new, index, inputs, kind, bound, typ),
    ensures
        grown(old, new, bound),
{
    assert forall|j: usize| live(new, j) implies (#[trigger] new[j as int])->0.uid >= bound
        || (live(
        old,
        j,
    ) && same_node(old[j as int]->0, new[j as int]->0)) by {
        if j != index {
            let x = mid[j as int];
        }
    }
}

/// The node in slot `nid` needs no peephole: its type does not call for a
/// constant in its place, and no rule of the catalogue fires on it.
pub open spec fn settled(g: Seq<Option<Node>>, nid: usize) -> bool {
    &&& live(g, nid)
    &&& !(g[nid as int]->0.typ@.is_constant() && !(g[nid as int]->0.node_kind is Constant))
    &&& rewrite_spec(g, nid) == Some(Rewrite::Keep)
}

/// The node in slot `nid` of `new` was created from these inputs, this kind
/// and this seed type over the nodes of `old`: it has these inputs, this kind
/// and the unique id `uid`, nothing observes it yet, and its type is the seed
/// type refined by the types of its inputs.
pub open spec fn created(
    old: Seq<Option<Node>>,
    new: Seq<Option<Node>>,
    nid: usize,
    inputs: Seq<usize>,
    kind: NodeKind,
    typ: TypV,
    uid: usize,
) -> bool {
    &&& all_live(old, inputs)
    &&& all_live(new, inputs)
    &&& !inputs.contains(nid)
    &&& live(old, KEEP_ALIVE_NID) ==> nid != KEEP_ALIVE_NID
    &&& live(new, nid)
    &&& new[nid as int]->0.node_kind == kind
    &&& new[nid as int]->0.inputs@ == inputs
    &&& new[nid as int]->0.outputs@ == Seq::<usize>::empty()
    &&& new[nid as int]->0.nid == nid
    &&& new[nid as int]->0.uid == uid
    &&& typ.transition_allowed(new[nid as int]->0.typ@)
    &&& new[nid as int]->0.typ@ == refined_from(old, inputs, kind, typ)
    &&& forall|i: int|
        0 <= i < inputs.len() ==> out_mult(new, #[trigger] inputs[i], nid) > 0
            && new[inputs[i] as int]->0.typ@ == old[inputs[i] as int]->0.typ@ && (constant_node(
            old,
            inputs[i],
        ) ==> constant_node(new, inputs[i])) && (inputs[i] != KEEP_ALIVE_NID
            ==> new[inputs[i] as int]->0.same_but_outputs(&old[inputs[i] as int]->0))
}

/// A product of operands of the types `a` and `b` is left as it is by the
/// catalogue: the right one is not the constant 1, and no constant stands on
/// the left of something else.
pub open spec fn product_rests(a: TypV, b: TypV) -> bool {
    b != (TypV::Int { constant: 1 }) && !(a.is_constant() && !b.is_constant())
}

/// A node with these inputs, of this kind and with this refined type is
/// settled as soon as it is created over the arena `g`: no constant takes its
/// place, and the catalogue has no rule for its kind, or, for a product or a
/// quotient, none that fires on operands of these types.
pub open spec fn rests(
    g: Seq<Option<Node>>,
    inputs: Seq<usize>,
    kind: NodeKind,
    refined: TypV,
) -> bool {
    &&& kind is Constant || !refined.is_constant()
    &&& match kind {
        NodeKind::Add | NodeKind::Comp { .. } => false,
        NodeKind::Mul => inputs.len() >= 2 && product_rests(
            g[inputs[0] as int]->0.typ@,
            g[inputs[1] as int]->0.typ@,
        ),
        NodeKind::Div => inputs.len() >= 2 && g[inputs[1] as int]->0.typ@ != (TypV::Int {
            constant: 1,
        }),
        _ => true,
    }
}

/// What is owed where a node with these inputs, of this kind and with this
/// seed type is created and left as it is: the node returned is the node
/// created, and one unique id is used; the call fails with
/// `NodeIdNotExisting` if and only if the node
/// cannot be added, and else with `TypTransitionNotAllowed` if and only if the
/// refined type is not at or above the seed type.
pub open spec fn node_made(
    before: &Parser,
    after: &Parser,
    inputs: Seq<usize>,
    kind: NodeKind,
    typ: TypV,
    r: Result<usize, SoNError>,
) -> bool {
    match r {
        Ok(nid) => before.addable(inputs, kind) && created(
            before.graph@,
            after.graph@,
            nid,
            inputs,
            kind,
            typ,
            before.graph.next_uid(),
        ) && after.graph.next_uid() == before.graph.next_uid() + 1,
        Err(SoNError::NodeIdNotExisting) => !before.addable(inputs, kind),
        Err(SoNError::TypTransitionNotAllowed) => before.addable(inputs, kind)
            && !typ.transition_allowed(refined_from(before.graph@, inputs, kind, typ)),
        Err(_) => false,
    }
}

/// What `add_node` owes for these inputs, this kind and this seed type, when
/// it starts from `before`, ends in `after` and returns `r`.
///
/// A node that is returned is there.  The call fails with `NodeIdNotExisting`
/// unless the node can be added.  Where the node asked for is returned as it
/// is created, nothing else makes the call fail but a refined type that is
/// not at or above the seed type, and the node returned is the node created.
pub open spec fn node_added(
    before: &Parser,
    after: &Parser,
    inputs: Seq<usize>,
    kind: NodeKind,
    typ: TypV,
    r: Result<usize, SoNError>,
) -> bool {
    match r {
        Ok(nid) => {
            &&& live(after.graph@, nid)
            &&& before.addable(inputs, kind)
            &&& before.plain(inputs, kind, typ) ==> created(
                before.graph@,
                after.graph@,
                nid,
                inputs,
                kind,
                typ,
                before.graph.next_uid(),
            )
        },
        Err(SoNError::NodeIdNotExisting) => before.plain(inputs, kind, typ) ==> !before.addable(
            inputs,
            kind,
        ),
        Err(SoNError::TypTransitionNotAllowed) => before.plain(inputs, kind, typ) ==> before.addable(
            inputs,
            kind,
        ) && !typ.transition_allowed(refined_from(before.graph@, inputs, kind, typ)),
        Err(_) => false,
    }
}

/// What is owed where a constant of the type `typ` takes the place of a
/// node: a node that is returned is that constant, created over `before`
/// with the unique id `uid`, and the call fails only where the unique ids are
/// used up.
pub open spec fn constant_added(
    before: Seq<Option<Node>>,
    after: Seq<Option<Node>>,
    typ: TypV,
    uid: usize,
    r: Result<usize, SoNError>,
) -> bool {
    match r {
        Ok(nid) => created(before, after, nid, Seq::empty(), NodeKind::Constant, typ, uid),
        Err(e) => e is NodeIdNotExisting && uid == usize::MAX,
    }
}

/// The type of the node in slot `nid` is a compile-time value, and the node
/// is no constant: a peephole puts a constant in its place.
pub open spec fn folds(g: Seq<Option<Node>>, nid: usize) -> bool {
    &&& live(g, nid)
    &&& g[nid as int]->0.typ@.is_constant()
    &&& !(g[nid as int]->0.node_kind is Constant)
}

/// A node that was created and pinned is still there after a collection, and
/// so are its inputs and the keep-alive node.
pub proof fn lemma_created_outlives_sweep(
    old: Seq<Option<Node>>,
    made: Seq<Option<Node>>,
    pinned: Seq<Option<Node>>,
    swept: Seq<Option<Node>>,
    gone: Set<usize>,
    nid: usize,
    inputs: Seq<usize>,
    kind: NodeKind,
    typ: TypV,
    uid: usize,
)
    requires
        created(old, made, nid, inputs, kind, typ, uid),
        nid != KEEP_ALIVE_NID,
        live(made, KEEP_ALIVE_NID),
        edge_added(made, pinned, KEEP_ALIVE_NID, nid),
        collected(pinned, swept),
        crate::services::collector::swept(pinned, swept, gone),
    ensures
        live(swept, KEEP_ALIVE_NID),
        live(swept, nid),
        swept[nid as int]->0.same_but_outputs(&made[nid as int]->0),
        swept[nid as int]->0.outputs@ == seq![KEEP_ALIVE_NID],
        all_live(swept, inputs),
        forall|i: int|
            0 <= i < inputs.len() ==> out_mult(swept, #[trigger] inputs[i], nid) > 0
                && swept[inputs[i] as int]->0.typ@ == old[inputs[i] as int]->0.typ@,
{
    let held = pinned[nid as int]->0.outputs@;
    lemma_count_push(Seq::<usize>::empty(), KEEP_ALIVE_NID, KEEP_ALIVE_NID);
    assert(held == Seq::<usize>::empty().push(KEEP_ALIVE_NID));
    assert(count(held, KEEP_ALIVE_NID) == 1);
    let cell = swept[nid as int];
    let anchor = swept[KEEP_ALIVE_NID as int];
    assert(cell is Some);
    let left = cell->0.outputs@;
    assert(left.len() <= 1);
    assert(count(left, KEEP_ALIVE_NID) == 1);
    assert(left.len() == 1);
    assert(count(left.drop_last(), KEEP_ALIVE_NID) == 0);
    assert(left.last() == KEEP_ALIVE_NID);
    assert(left =~= seq![KEEP_ALIVE_NID]);
    assert(!gone.contains(nid));
    assert forall|i: int| 0 <= i < inputs.len() implies live(swept, #[trigger] inputs[i])
        && out_mult(swept, inputs[i], nid) > 0 && swept[inputs[i] as int]->0.typ@
        == old[inputs[i] as int]->0.typ@ by {
        let d = inputs[i];
        assert(out_mult(made, d, nid) > 0);
        assert(d != nid);
        assert(pinned[d as int]->0.outputs == made[d as int]->0.outputs) by {
            if d != KEEP_ALIVE_NID {
                assert(pinned[d as int] == made[d as int]);
            }
        }
        assert(out_mult(pinned, d, nid) > 0);
        if !live(swept, d) {
            assert(gone.contains(d));
            assert(gone.contains(nid));
        }
    }
}

/// A node that was created, then pinned through a collection and released
/// again, is as it was created.
pub proof fn lemma_created_released(
    old: Seq<Option<Node>>,
    made: Seq<Option<Node>>,
    pinned: Seq<Option<Node>>,
    swept: Seq<Option<Node>>,
    gone: Set<usize>,
    new: Seq<Option<Node>>,
    nid: usize,
    inputs: Seq<usize>,
    kind: NodeKind,
    typ: TypV,
    uid: usize,
)
    requires
        created(old, made, nid, inputs, kind, typ, uid),
        nid != KEEP_ALIVE_NID,
        live(made, KEEP_ALIVE_NID),
        edge_added(made, pinned, KEEP_ALIVE_NID, nid),
        collected(pinned, swept),
        crate::services::collector::swept(pinned, swept, gone),
        edge_removed(swept, new, KEEP_ALIVE_NID, nid),
    ensures
        created(old, new, nid, inputs, kind, typ, uid),
{
    lemma_created_outlives_sweep(old, made, pinned, swept, gone, nid, inputs, kind, typ, uid);
    let left = swept[nid as int]->0.outputs@;
    assert(left.last() == KEEP_ALIVE_NID);
    assert(last_index_of(left, KEEP_ALIVE_NID) == 0);
    assert(remove_last(left, KEEP_ALIVE_NID) =~= Seq::<usize>::empty());
    assert(new[nid as int]->0.inputs@ == inputs);
    assert forall|i: int| 0 <= i < inputs.len() implies live(new, #[trigger] inputs[i])
        && out_mult(new, inputs[i], nid) > 0 && new[inputs[i] as int]->0.typ@
        == old[inputs[i] as int]->0.typ@ by {
        let d = inputs[i];
        assert(d != nid);
        assert(new[d as int]->0.outputs == swept[d as int]->0.outputs) by {
            if d != KEEP_ALIVE_NID {
                assert(new[d as int] == swept[d as int]);
            }
        }
    }
}

/// A constant keeps the type it is given, and a compile-time value may
/// stand where it stood.
pub proof fn lemma_constant_stays(g: Seq<Option<Node>>, typ: TypV)
    ensures
        refined_from(g, Seq::empty(), NodeKind::Constant, typ) == typ,
        typ.is_constant() ==> typ.transition_allowed(typ),
{
}

/// A node that is added with the seed type `Bot`, and whose refined type is
/// a compile-time value or lets it rest as it is created, carries that type
/// when it is returned, whether a constant has taken its place or not.
pub proof fn lemma_added_typ(
    before: &Parser,
    after: &Parser,
    inputs: Seq<usize>,
    kind: NodeKind,
    r: Result<usize, SoNError>,
)
    requires
        node_added(before, after, inputs, kind, TypV::Bot, r),
        before.folding(inputs, kind, TypV::Bot) ==> constant_added(
            before.graph@,
            after.graph@,
            refined_from(before.graph@, inputs, kind, TypV::Bot),
            (before.graph.next_uid() + 1) as usize,
            r,
        ),
        r is Ok,
        live(before.graph@, KEEP_ALIVE_NID),
        !(kind is Constant),
        refined_from(before.graph@, inputs, kind, TypV::Bot).is_constant() || rests(
            before.graph@,
            inputs,
            kind,
            refined_from(before.graph@, inputs, kind, TypV::Bot),
        ),
    ensures
        after.graph@[r->Ok_0 as int]->0.typ@ == refined_from(
            before.graph@,
            inputs,
            kind,
            TypV::Bot,
        ),
{
    let t = refined_from(before.graph@, inputs, kind, TypV::Bot);
    lemma_constant_stays(before.graph@, t);
    assert(TypV::Bot.transition_allowed(t));
}

/// What a node costs that is added with the seed type `Bot` and is either
/// left as it is created or gives way to a constant: one or two unique ids;
/// and it fails only where these are not left.
pub proof fn lemma_added_cost(
    before: &Parser,
    after: &Parser,
    inputs: Seq<usize>,
    kind: NodeKind,
    r: Result<usize, SoNError>,
)
    requires
        node_added(before, after, inputs, kind, TypV::Bot, r),
        before.plain(inputs, kind, TypV::Bot) ==> node_made(
            before,
            after,
            inputs,
            kind,
            TypV::Bot,
            r,
        ),
        before.folding(inputs, kind, TypV::Bot) ==> constant_added(
            before.graph@,
            after.graph@,
            refined_from(before.graph@, inputs, kind, TypV::Bot),
            (before.graph.next_uid() + 1) as usize,
            r,
        ) && (r is Ok ==> after.graph.next_uid() == before.graph.next_uid() + 2),
        !before.addable(inputs, kind) ==> r is Err && r->Err_0 is NodeIdNotExisting,
        live(before.graph@, KEEP_ALIVE_NID),
        all_live(before.graph@, inputs),
        inputs.len() >= refiner_reads(kind),
        !(kind is Constant),
        !before.do_optimize || refined_from(before.graph@, inputs, kind, TypV::Bot).is_constant()
            || rests(
            before.graph@,
            inputs,
            kind,
            refined_from(before.graph@, inputs, kind, TypV::Bot),
        ),
    ensures
        r is Ok ==> before.graph.next_uid() < after.graph.next_uid() <= before.graph.next_uid() + 2,
        r is Err ==> r->Err_0 is NodeIdNotExisting && before.graph.next_uid() + 2 > usize::MAX,
{
    let t = refined_from(before.graph@, inputs, kind, TypV::Bot);
    assert(TypV::Bot.transition_allowed(t));
}

/// The constants among the nodes that are pinned in `old`, or are among
/// `ins`, are constants in `new`, and each of these nodes but the keep-alive
/// node and the scope node has as many inputs as before; the nodes of `ins`
/// are as they were but for their observers.
pub open spec fn constants_held(
    old: Seq<Option<Node>>,
    new: Seq<Option<Node>>,
    ins: Seq<usize>,
) -> bool {
    &&& forall|x: usize|
        #![trigger constant_node(new, x)]
        (out_mult(old, x, KEEP_ALIVE_NID) > 0 || ins.contains(x)) && constant_node(old, x)
            ==> constant_node(new, x)
    &&& forall|x: usize|
        (out_mult(old, x, KEEP_ALIVE_NID) > 0 || ins.contains(x)) && live(old, x) && x
            != KEEP_ALIVE_NID && x != SCOPE_NID ==> (#[trigger] new[x as int]) is Some
            && new[x as int]->0.inputs@.len() == old[x as int]->0.inputs@.len()
    &&& forall|x: usize|
        ins.contains(x) && live(old, x) && x != KEEP_ALIVE_NID ==> (#[trigger] new[x as int])
            is Some && new[x as int]->0.same_but_outputs(&old[x as int]->0)
}

/// With the optimizer on, a node that is added as `lemma_added_cost` asks
/// is folded when it is returned: a constant where its refined type is a
/// compile-time value.
pub proof fn lemma_added_folded(
    before: &Parser,
    after: &Parser,
    inputs: Seq<usize>,
    kind: NodeKind,
    r: Result<usize, SoNError>,
)
    requires
        node_added(before, after, inputs, kind, TypV::Bot, r),
        before.plain(inputs, kind, TypV::Bot) ==> node_made(
            before,
            after,
            inputs,
            kind,
            TypV::Bot,
            r,
        ),
        before.folding(inputs, kind, TypV::Bot) ==> constant_added(
            before.graph@,
            after.graph@,
            refined_from(before.graph@, inputs, kind, TypV::Bot),
            (before.graph.next_uid() + 1) as usize,
            r,
        ),
        live(before.graph@, KEEP_ALIVE_NID),
        !(kind is Constant),
        before.do_optimize,
        r is Ok,
        refined_from(before.graph@, inputs, kind, TypV::Bot).is_constant() || rests(
            before.graph@,
            inputs,
            kind,
            refined_from(before.graph@, inputs, kind, TypV::Bot),
        ),
    ensures
        after.graph@[r->Ok_0 as int]->0.typ@.is_constant() ==> constant_node(
            after.graph@,
            r->Ok_0,
        ),
{
    let t = refined_from(before.graph@, inputs, kind, TypV::Bot);
    assert(TypV::Bot.transition_allowed(t));
    lemma_constant_stays(before.graph@, t);
}

/// What a peephole on the node `nid` owes, with rewrites nested to the depth
/// `depth` at most: without the node it fails and changes nothing; at depth
/// 0, and on a settled node, the node is returned and nothing changes; a node
/// whose type is a compile-time value gives way to a constant of that type;
/// and on every other node the rewrite that the catalogue asks for is made.
pub open spec fn peeped(
    before: &Parser,
    after: &Parser,
    nid: usize,
    depth: usize,
    r: Result<usize, SoNError>,
) -> bool {
    let g = before.graph@;
    if !live(g, nid) {
        r is Err && after.graph@ == g
    } else if depth == 0 || settled(g, nid) {
        r == Ok::<usize, SoNError>(nid) && after.graph_same(before)
    } else if folds(g, nid) {
        live(g, KEEP_ALIVE_NID) ==> constant_added(
            g,
            after.graph@,
            g[nid as int]->0.typ@,
            before.graph.next_uid(),
            r,
        )
    } else {
        rewritten_by(before, after, nid, (depth - 1) as usize, r)
    }
}

/// What is owed where the node `m` is pinned through one sweep of the
/// collector and released again: without the node or the keep-alive node the
/// call fails; else the node is returned, no unique id is used, and the node
/// is as it was but for its observers.
pub open spec fn repinned(
    before: &Parser,
    after: &Parser,
    m: usize,
    r: Result<usize, SoNError>,
) -> bool {
    let g = before.graph@;
    let h = after.graph@;
    if !(live(g, KEEP_ALIVE_NID) && live(g, m)) {
        r is Err && r->Err_0 is NodeIdNotExisting
    } else {
        &&& r == Ok::<usize, SoNError>(m)
        &&& after.graph.next_uid() == before.graph.next_uid()
        &&& m != KEEP_ALIVE_NID ==> live(h, m) && h[m as int]->0.same_but_outputs(&g[m as int]->0)
    }
}

/// The steps of `add_node` with the optimizer on: the node `first` is
/// created, which leads to `made`; a peephole on it leads to `looked` with
/// the result `seen`; and what it returns is pinned through one sweep.
pub open spec fn peep_chain(
    before: &Parser,
    made: Parser,
    first: usize,
    looked: Parser,
    seen: Result<usize, SoNError>,
    after: &Parser,
    inputs: Seq<usize>,
    kind: NodeKind,
    typ: TypV,
    depth: usize,
    r: Result<usize, SoNError>,
) -> bool {
    &&& node_made(before, &made, inputs, kind, typ, Ok(first))
    &&& peeped(&made, &looked, first, depth, seen)
    &&& match seen {
        Ok(m) => repinned(&looked, after, m, r),
        Err(_) => r == seen,
    }
}

/// What `add_node` owes with the optimizer on, for a node that can be added
/// and whose refined type is at or above its seed type: the node is created,
/// a peephole looks at it, and what the peephole returns is pinned through
/// one sweep of the collector and returned.
pub open spec fn node_peeped(
    before: &Parser,
    after: &Parser,
    inputs: Seq<usize>,
    kind: NodeKind,
    typ: TypV,
    depth: usize,
    r: Result<usize, SoNError>,
) -> bool {
    exists|made: Parser, first: usize, looked: Parser, seen: Result<usize, SoNError>|
        #[trigger] peep_chain(
            before,
            made,
            first,
            looked,
            seen,
            after,
            inputs,
            kind,
            typ,
            depth,
            r,
        )
}

/// A peephole on a settled node, or on a node that folds, returns a settled
/// node: a second peephole on what the first returned returns the same slot
/// and changes nothing.
pub proof fn lemma_peephole_settles(
    before: &Parser,
    after: &Parser,
    nid: usize,
    depth: usize,
    m: usize,
)
    requires
        peeped(before, after, nid, depth, Ok(m)),
        settled(before.graph@, nid) || (depth > 0 && folds(before.graph@, nid) && live(
            before.graph@,
            KEEP_ALIVE_NID,
        )),
    ensures
        settled(after.graph@, m),
        forall|again: Parser, second: Result<usize, SoNError>|
            #[trigger] peeped(after, &again, m, depth, second) ==> second == Ok::<usize, SoNError>(
                m,
            ) && again.graph_same(after),
{
    if !settled(before.graph@, nid) {
        lemma_constant_stays(before.graph@, before.graph@[nid as int]->0.typ@);
    }
}

impl Parser {
    /// The arena is that of `before`, cell by cell, and so is the next unique id.
    pub open spec fn graph_same(&self, before: &Parser) -> bool {
        self.graph@ == before.graph@ && self.graph.next_uid() == before.graph.next_uid()
    }

    /// The nodes of `inputs` can be pinned: they are all there, and if there are
    /// any, so is the keep-alive node.
    pub open spec fn room_for(&self, inputs: Seq<usize>) -> bool {
        &&& inputs.len() > 0 ==> live(self.graph@, KEEP_ALIVE_NID)
        &&& all_live(self.graph@, inputs)
    }

    /// A node with these inputs and of this kind can be added: it can be
    /// created, and the keep-alive node is there to pin its inputs.
    pub open spec fn addable(&self, inputs: Seq<usize>, kind: NodeKind) -> bool {
        &&& inputs.len() > 0 ==> live(self.graph@, KEEP_ALIVE_NID)
        &&& self.graph.creatable(inputs, kind)
    }

    /// The node asked for is returned as it is created: the optimizer is off,
    /// or the node is settled as soon as it is created and the keep-alive
    /// node is there to pin it.
    pub open spec fn plain(&self, inputs: Seq<usize>, kind: NodeKind, typ: TypV) -> bool {
        !self.do_optimize || (live(self.graph@, KEEP_ALIVE_NID) && rests(
            self.graph@,
            inputs,
            kind,
            refined_from(self.graph@, inputs, kind, typ),
        ))
    }

    /// The node asked for is returned as it is created where rewrites may
    /// nest to the depth `depth`: it would be in any case, or no rewrite is
    /// left to look at it and the keep-alive node is there to pin it.
    pub open spec fn unfolded(
        &self,
        inputs: Seq<usize>,
        kind: NodeKind,
        typ: TypV,
        depth: usize,
    ) -> bool {
        self.plain(inputs, kind, typ) || (depth == 0 && live(self.graph@, KEEP_ALIVE_NID))
    }

    /// A node with these inputs, of this kind and with this seed type gives
    /// way to a constant as soon as it is added: the optimizer is on, the node
    /// can be added and pinned, and its refined type is a compile-time value
    /// at or above the seed type.
    pub open spec fn folding(&self, inputs: Seq<usize>, kind: NodeKind, typ: TypV) -> bool {
        &&& self.do_optimize
        &&& self.addable(inputs, kind)
        &&& live(self.graph@, KEEP_ALIVE_NID)
        &&& !(kind is Constant)
        &&& refined_from(self.graph@, inputs, kind, typ).is_constant()
        &&& typ.transition_allowed(refined_from(self.graph@, inputs, kind, typ))
    }

    /// The arena has grown out of that of `before`: the unique ids went on
    /// from where they stood, and no node that was there has changed its
    /// kind or its type.
    pub open spec fn grows_from(&self, before: &Parser) -> bool {
        &&& before.graph.next_uid() <= self.graph.next_uid()
        &&& grown(before.graph@, self.graph@, before.graph.next_uid())
    }

    /// Creates a node, after a sweep of the collector that spares the inputs.
    /// With the optimizer on, the node is then peephole-optimized, and what
    /// takes its place is returned after another sweep.
    ///
    /// With the optimizer on, what is returned is what a peephole on the node
    /// created returns, pinned through one sweep, as `node_peeped` says.
    /// With the optimizer off, the node returned is the node created, and so
    /// it is for a constant.  With the optimizer on, a node whose refined type
    /// is a compile-time value gives way to a constant of that type, which is
    /// returned.
    pub fn add_node(&mut self, inputs: Vec<usize>, node_kind: NodeKind, typ: Typ) -> (r: Result<
        usize,
        SoNError,
    >)
        ensures
            final(self).same_but_arena(old(self)),
            final(self).grows_from(old(self)),
            r is Ok ==> scope_kept(old(self).graph@, final(self).graph@),
            pins_held(old(self).graph@, final(self).graph@),
            final(self).linked_from(old(self)),
            node_added(old(self), final(self), inputs@, node_kind, typ@, r),
            old(self).do_optimize && old(self).addable(inputs@, node_kind) && typ@.transition_allowed(
                refined_from(old(self).graph@, inputs@, node_kind, typ@),
            ) ==> node_peeped(old(self), final(self), inputs@, node_kind, typ@, REWRITE_DEPTH, r),
            !old(self).addable(inputs@, node_kind) ==> r is Err && r->Err_0 is NodeIdNotExisting,
            old(self).plain(inputs@, node_kind, typ@) ==> node_made(
                old(self),
                final(self),
                inputs@,
                node_kind,
                typ@,
                r,
            ),
            old(self).folding(inputs@, node_kind, typ@) && r is Ok
                ==> final(self).graph.next_uid() == old(self).graph.next_uid() + 2,
            old(self).folding(inputs@, node_kind, typ@) ==> constant_added(
                old(self).graph@,
                final(self).graph@,
                refined_from(old(self).graph@, inputs@, node_kind, typ@),
                (old(self).graph.next_uid() + 1) as usize,
                r,
            ),
    {
        self.add_node_at(inputs, node_kind, typ, REWRITE_DEPTH)
    }

    /// One sweep of the collector that spares the nodes of `inputs`, which are
    /// pinned while it runs.
    ///
    /// It fails, before the sweep, unless the keep-alive node and all the nodes
    /// of `inputs` are there; they are there afterwards too.
    #[verifier::rlimit(60)]
    pub(crate) fn sweep_around(&mut self, inputs: &Vec<usize>) -> (r: Result<(), SoNError>)
        ensures
            final(self).same_but_graph(old(self)),
            retained(old(self).graph@, final(self).graph@),
            pins_held(old(self).graph@, final(self).graph@),
            constants_held(old(self).graph@, final(self).graph@, inputs@),
            final(self).linked_from(old(self)),
            r is Ok ==> scope_kept(old(self).graph@, final(self).graph@),
            match r {
                Ok(_) => old(self).room_for(inputs@) && all_live(final(self).graph@, inputs@),
                Err(e) => e is NodeIdNotExisting && !old(self).room_for(inputs@),
            },
    {
        let mut k: usize = 0;
        let ghost ins = inputs@;
        let ghost can = old(self).room_for(ins);
        proof {
            lemma_collected_reflexive(self.graph@);
            lemma_retained(self.graph@, self.graph@, 0, 0);
        }
        while k < inputs.len()
            invariant
                k <= inputs@.len(),
                ins == inputs@,
                can == old(self).room_for(ins),
                self.same_but_arena(old(self)),
                self.graph.next_uid() == old(self).graph.next_uid(),
                retained(old(self).graph@, self.graph@),
                constants_held(old(self).graph@, self.graph@, ins),
                forall|x: usize| #[trigger]
                    in_mult(self.graph@, KEEP_ALIVE_NID, x) == in_mult(
                        old(self).graph@,
                        KEEP_ALIVE_NID,
                        x,
                    ) + count(ins.take(k as int), x),
                k > 0 ==> live(old(self).graph@, KEEP_ALIVE_NID),
                can && ins.len() > 0 ==> live(self.graph@, KEEP_ALIVE_NID),
                can ==> all_live(self.graph@, ins),
                anchored(old(self).graph@) ==> bonds_kept(old(self).graph@, self.graph@),
                self.linked_from(old(self)),
                live(old(self).graph@, KEEP_ALIVE_NID) ==> live(self.graph@, KEEP_ALIVE_NID),
                forall|x: usize|
                    out_mult(old(self).graph@, x, KEEP_ALIVE_NID) > 0 ==> #[trigger] out_mult(
                        self.graph@,
                        x,
                        KEEP_ALIVE_NID,
                    ) >= out_mult(old(self).graph@, x, KEEP_ALIVE_NID) + count(
                        ins.take(k as int),
                        x,
                    ),
                anchored(old(self).graph@) ==> self.graph@[SCOPE_NID as int]->0.inputs@
                    == old(self).graph@[SCOPE_NID as int]->0.inputs@,
                anchored(old(self).graph@) ==> live(self.graph@, KEEP_ALIVE_NID) && scope_stack(
                    self.graph@,
                ) == scope_stack(old(self).graph@) && out_mult(
                    self.graph@,
                    SCOPE_NID,
                    KEEP_ALIVE_NID,
                ) == out_mult(old(self).graph@, SCOPE_NID, KEEP_ALIVE_NID) + count(
                    ins.take(k as int),
                    SCOPE_NID,
                ),
                forall|i: int|
                    0 <= i < k ==> live(self.graph@, #[trigger] ins[i]) && count(
                        self.graph@[ins[i] as int]->0.outputs@,
                        KEEP_ALIVE_NID,
                    ) > 0,
            decreases inputs.len() - k,
        {
            let ghost before = self.graph@;
            assert(can ==> live(before, ins[k as int]));
            match self.keep_node(inputs[k]) {
                Ok(_) => {},
                Err(e) => {
                    return Err(e);
                },
            }
            proof {
                assert forall|x: usize|
                    #![trigger constant_node(self.graph@, x)]
                    constant_node(before, x) implies constant_node(self.graph@, x) by {
                    let cell = self.graph@[x as int];
                }
                assert forall|x: usize|
                    (out_mult(old(self).graph@, x, KEEP_ALIVE_NID) > 0 || ins.contains(x)) && live(
                        old(self).graph@,
                        x,
                    ) && x != KEEP_ALIVE_NID && x != SCOPE_NID implies (
                #[trigger] self.graph@[x as int]) is Some && self.graph@[x as int]->0.inputs@.len()
                    == old(self).graph@[x as int]->0.inputs@.len() by {
                    let cell = before[x as int];
                    assert(live(before, x));
                }
                assert forall|x: usize|
                    ins.contains(x) && live(old(self).graph@, x) && x != KEEP_ALIVE_NID implies (
                #[trigger] self.graph@[x as int]) is Some
                    && self.graph@[x as int]->0.same_but_outputs(
                    &old(self).graph@[x as int]->0,
                ) by {
                    let cell = before[x as int];
                    assert(live(before, x));
                    if x != ins[k as int] {
                        assert(self.graph@[x as int] == before[x as int]);
                    }
                }
                assert forall|x: usize| #[trigger]
                    in_mult(self.graph@, KEEP_ALIVE_NID, x) == in_mult(
                        old(self).graph@,
                        KEEP_ALIVE_NID,
                        x,
                    ) + count(ins.take(k + 1), x) by {
                    assert(ins.take(k + 1) =~= ins.take(k as int).push(ins[k as int]));
                    lemma_count_push(ins.take(k as int), ins[k as int], x);
                    assert(in_mult(before, KEEP_ALIVE_NID, x) == in_mult(
                        old(self).graph@,
                        KEEP_ALIVE_NID,
                        x,
                    ) + count(ins.take(k as int), x));
                }
                lemma_retained(before, self.graph@, KEEP_ALIVE_NID, inputs@[k as int]);
                lemma_retained_transitive(old(self).graph@, before, self.graph@);
                lemma_scope_pinned(before, self.graph@, ins[k as int]);
                assert(ins.take(k + 1) =~= ins.take(k as int).push(ins[k as int]));
                lemma_count_push(ins.take(k as int), ins[k as int], SCOPE_NID);
                assert forall|x: usize|
                    out_mult(old(self).graph@, x, KEEP_ALIVE_NID) > 0 implies #[trigger] out_mult(
                    self.graph@,
                    x,
                    KEEP_ALIVE_NID,
                ) >= out_mult(old(self).graph@, x, KEEP_ALIVE_NID) + count(ins.take(k + 1), x) by {
                    lemma_count_push(ins.take(k as int), ins[k as int], x);
                    assert(out_mult(before, x, KEEP_ALIVE_NID) >= out_mult(
                        old(self).graph@,
                        x,
                        KEEP_ALIVE_NID,
                    ) + count(ins.take(k as int), x));
                }
                lemma_count_push(
                    before[ins[k as int] as int]->0.outputs@,
                    KEEP_ALIVE_NID,
                    KEEP_ALIVE_NID,
                );
                assert forall|i: int| 0 <= i < k + 1 implies live(self.graph@, #[trigger] ins[i])
                    && count(self.graph@[ins[i] as int]->0.outputs@, KEEP_ALIVE_NID) > 0 by {
                    if ins[i] != ins[k as int] {
                        assert(live(before, ins[i]));
                        if ins[i] != KEEP_ALIVE_NID {
                            assert(self.graph@[ins[i] as int] == before[ins[i] as int]);
                        }
                    }
                }
                if can {
                    assert forall|i: int| 0 <= i < ins.len() implies live(
                        self.graph@,
                        #[trigger] ins[i],
                    ) by {
                        assert(live(before, ins[i]));
                        if ins[i] != KEEP_ALIVE_NID && ins[i] != ins[k as int] {
                            assert(self.graph@[ins[i] as int] == before[ins[i] as int]);
                        }
                    }
                }
            }
            k += 1;
        }
        let ghost before = self.graph@;
        assert(ins.take(ins.len() as int) =~= ins);
        assert(ins.take(0) =~= Seq::<usize>::empty());
        self.drop_unused_nodes();
        proof {
            assert forall|x: usize|
                #![trigger constant_node(self.graph@, x)]
                (out_mult(old(self).graph@, x, KEEP_ALIVE_NID) > 0 || ins.contains(x))
                    && constant_node(old(self).graph@, x) implies constant_node(
                self.graph@,
                x,
            ) by {
                assert(constant_node(before, x));
                if ins.contains(x) {
                    let i = choose|i: int| 0 <= i < ins.len() && ins[i] == x;
                    assert(count(before[ins[i] as int]->0.outputs@, KEEP_ALIVE_NID) > 0);
                }
                assert(out_mult(before, x, KEEP_ALIVE_NID) > 0);
            }
            assert forall|x: usize|
                (out_mult(old(self).graph@, x, KEEP_ALIVE_NID) > 0 || ins.contains(x)) && live(
                    old(self).graph@,
                    x,
                ) && x != KEEP_ALIVE_NID && x != SCOPE_NID implies (
            #[trigger] self.graph@[x as int]) is Some && self.graph@[x as int]->0.inputs@.len()
                == old(self).graph@[x as int]->0.inputs@.len() by {
                let held = before[x as int];
                assert(live(before, x));
                if ins.contains(x) {
                    let i = choose|i: int| 0 <= i < ins.len() && ins[i] == x;
                    assert(count(before[ins[i] as int]->0.outputs@, KEEP_ALIVE_NID) > 0);
                }
                assert(out_mult(before, x, KEEP_ALIVE_NID) > 0);
                let cell = self.graph@[x as int];
            }
            assert forall|x: usize|
                ins.contains(x) && live(old(self).graph@, x) && x != KEEP_ALIVE_NID implies (
            #[trigger] self.graph@[x as int]) is Some && self.graph@[x as int]->0.same_but_outputs(
                &old(self).graph@[x as int]->0,
            ) by {
                let held = before[x as int];
                assert(live(before, x));
                let i = choose|i: int| 0 <= i < ins.len() && ins[i] == x;
                assert(count(before[ins[i] as int]->0.outputs@, KEEP_ALIVE_NID) > 0);
                let cell = self.graph@[x as int];
            }
            assert forall|x: usize| #[trigger]
                in_mult(self.graph@, KEEP_ALIVE_NID, x) == in_mult(before, KEEP_ALIVE_NID, x) by {
                let cell = self.graph@[KEEP_ALIVE_NID as int];
            }
            lemma_retained(before, self.graph@, 0, 0);
            lemma_retained_transitive(old(self).graph@, before, self.graph@);
            assert forall|x: usize|
                out_mult(old(self).graph@, x, KEEP_ALIVE_NID) > 0 implies #[trigger] out_mult(
                self.graph@,
                x,
                KEEP_ALIVE_NID,
            ) >= out_mult(old(self).graph@, x, KEEP_ALIVE_NID) + count(ins, x) by {
                assert(out_mult(before, x, KEEP_ALIVE_NID) >= out_mult(
                    old(self).graph@,
                    x,
                    KEEP_ALIVE_NID,
                ) + count(ins, x));
            }
            assert forall|i: int| 0 <= i < ins.len()
                implies live(self.graph@, #[trigger] ins[i]) by {
                assert(live(before, ins[i]));
                let cell = self.graph@[ins[i] as int];
            }
            if can && ins.len() > 0 {
                let cell = self.graph@[KEEP_ALIVE_NID as int];
            }
        }
        k = 0;
        while k < inputs.len()
            invariant
                k <= inputs@.len(),
                ins == inputs@,
                can == old(self).room_for(ins),
                self.same_but_arena(old(self)),
                self.graph.next_uid() == old(self).graph.next_uid(),
                retained(old(self).graph@, self.graph@),
                constants_held(old(self).graph@, self.graph@, ins),
                forall|x: usize| #[trigger]
                    in_mult(self.graph@, KEEP_ALIVE_NID, x) + count(ins.take(k as int), x)
                        == in_mult(old(self).graph@, KEEP_ALIVE_NID, x) + count(ins, x),
                ins.len() > 0 ==> live(old(self).graph@, KEEP_ALIVE_NID),
                can && ins.len() > 0 ==> live(self.graph@, KEEP_ALIVE_NID),
                all_live(self.graph@, ins),
                anchored(old(self).graph@) ==> bonds_kept(old(self).graph@, self.graph@),
                self.linked_from(old(self)),
                live(old(self).graph@, KEEP_ALIVE_NID) ==> live(self.graph@, KEEP_ALIVE_NID),
                forall|x: usize|
                    out_mult(old(self).graph@, x, KEEP_ALIVE_NID) > 0 ==> #[trigger] out_mult(
                        self.graph@,
                        x,
                        KEEP_ALIVE_NID,
                    ) + count(ins.take(k as int), x) >= out_mult(
                        old(self).graph@,
                        x,
                        KEEP_ALIVE_NID,
                    ) + count(ins, x),
                anchored(old(self).graph@) ==> self.graph@[SCOPE_NID as int]->0.inputs@
                    == old(self).graph@[SCOPE_NID as int]->0.inputs@,
                anchored(old(self).graph@) ==> live(self.graph@, KEEP_ALIVE_NID) && scope_stack(
                    self.graph@,
                ) == scope_stack(old(self).graph@) && out_mult(
                    self.graph@,
                    SCOPE_NID,
                    KEEP_ALIVE_NID,
                ) + count(ins.take(k as int), SCOPE_NID) == out_mult(
                    old(self).graph@,
                    SCOPE_NID,
                    KEEP_ALIVE_NID,
                ) + count(ins, SCOPE_NID),
            decreases inputs.len() - k,
        {
            let ghost before = self.graph@;
            assert(live(before, ins[k as int]));
            match self.unkeep_node(inputs[k]) {
                Ok(_) => {},
                Err(e) => {
                    return Err(e);
                },
            }
            proof {
                assert forall|x: usize|
                    #![trigger constant_node(self.graph@, x)]
                    constant_node(before, x) implies constant_node(self.graph@, x) by {
                    let cell = self.graph@[x as int];
                }
                assert forall|x: usize|
                    (out_mult(old(self).graph@, x, KEEP_ALIVE_NID) > 0 || ins.contains(x)) && live(
                        old(self).graph@,
                        x,
                    ) && x != KEEP_ALIVE_NID && x != SCOPE_NID implies (
                #[trigger] self.graph@[x as int]) is Some && self.graph@[x as int]->0.inputs@.len()
                    == old(self).graph@[x as int]->0.inputs@.len() by {
                    let cell = before[x as int];
                    assert(live(before, x));
                }
                assert forall|x: usize|
                    ins.contains(x) && live(old(self).graph@, x) && x != KEEP_ALIVE_NID implies (
                #[trigger] self.graph@[x as int]) is Some
                    && self.graph@[x as int]->0.same_but_outputs(
                    &old(self).graph@[x as int]->0,
                ) by {
                    let cell = before[x as int];
                    assert(live(before, x));
                    if x != ins[k as int] {
                        assert(self.graph@[x as int] == before[x as int]);
                    }
                }
                assert forall|x: usize| #[trigger]
                    in_mult(self.graph@, KEEP_ALIVE_NID, x) + count(ins.take(k + 1), x)
                        == in_mult(old(self).graph@, KEEP_ALIVE_NID, x) + count(ins, x) by {
                    assert(ins.take(k + 1) =~= ins.take(k as int).push(ins[k as int]));
                    lemma_count_push(ins.take(k as int), ins[k as int], x);
                    lemma_count_take(ins, k + 1, ins[k as int]);
                    lemma_count_push(ins.take(k as int), ins[k as int], ins[k as int]);
                    assert(in_mult(before, KEEP_ALIVE_NID, x) + count(ins.take(k as int), x)
                        == in_mult(old(self).graph@, KEEP_ALIVE_NID, x) + count(ins, x));
                    assert(in_mult(before, KEEP_ALIVE_NID, ins[k as int]) + count(
                        ins.take(k as int),
                        ins[k as int],
                    ) == in_mult(old(self).graph@, KEEP_ALIVE_NID, ins[k as int]) + count(
                        ins,
                        ins[k as int],
                    ));
                }
                lemma_retained(before, self.graph@, KEEP_ALIVE_NID, inputs@[k as int]);
                lemma_retained_transitive(old(self).graph@, before, self.graph@);
                if live(before, KEEP_ALIVE_NID) {
                    lemma_scope_released(before, self.graph@, ins[k as int]);
                }
                assert(ins.take(k + 1) =~= ins.take(k as int).push(ins[k as int]));
                lemma_count_push(ins.take(k as int), ins[k as int], SCOPE_NID);
                lemma_count_take(ins, k as int, SCOPE_NID);
                assert forall|x: usize|
                    out_mult(old(self).graph@, x, KEEP_ALIVE_NID) > 0 implies #[trigger] out_mult(
                    self.graph@,
                    x,
                    KEEP_ALIVE_NID,
                ) + count(ins.take(k + 1), x) >= out_mult(old(self).graph@, x, KEEP_ALIVE_NID)
                    + count(ins, x) by {
                    lemma_count_push(ins.take(k as int), ins[k as int], x);
                    assert(out_mult(before, x, KEEP_ALIVE_NID) + count(ins.take(k as int), x)
                        >= out_mult(old(self).graph@, x, KEEP_ALIVE_NID) + count(ins, x));
                }
                assert forall|i: int| 0 <= i < ins.len() implies live(
                    self.graph@,
                    #[trigger] ins[i],
                ) by {
                    assert(live(before, ins[i]));
                    if ins[i] != KEEP_ALIVE_NID && ins[i] != ins[k as int] {
                        assert(self.graph@[ins[i] as int] == before[ins[i] as int]);
                    }
                }
            }
            k += 1;
        }
        Ok(())
    }

    /// Creates a node after a sweep of the collector that spares the inputs,
    /// and leaves it as it is created.
    #[verifier::rlimit(60)]
    pub(crate) fn make_node(
        &mut self,
        inputs: Vec<usize>,
        node_kind: NodeKind,
        typ: Typ,
    ) -> (r: Result<usize, SoNError>)
        ensures
            final(self).same_but_arena(old(self)),
            final(self).grows_from(old(self)),
            r is Ok ==> scope_kept(old(self).graph@, final(self).graph@),
            pins_held(old(self).graph@, final(self).graph@),
            final(self).linked_from(old(self)),
            node_made(old(self), final(self), inputs@, node_kind, typ@, r),
            r is Ok ==> final(self).graph.next_uid() == old(self).graph.next_uid() + 1,
    {
        let ghost ins = inputs@;
        match self.sweep_around(&inputs) {
            Ok(_) => {},
            Err(e) => {
                return Err(e);
            },
        }
        let ghost mid = self.graph@;
        proof {
            assert(all_live(old(self).graph@, ins)) by {
                assert forall|i: int| 0 <= i < ins.len() implies live(
                    old(self).graph@,
                    #[trigger] ins[i],
                ) by {
                    assert(live(mid, ins[i]));
                    assert(mid[ins[i] as int] is Some);
                }
            }
            assert(ins.len() >= refiner_reads(node_kind) ==> refined_from(mid, ins, node_kind, typ@)
                == refined_from(old(self).graph@, ins, node_kind, typ@)) by {
                if ins.len() >= refiner_reads(node_kind) {
                    assert forall|i: int|
                        0 <= i < refiner_reads(node_kind)
                            && i < ins.len() implies mid[ins[i] as int]->0.typ@
                        == old(self).graph@[ins[i] as int]->0.typ@ by {
                        assert(live(mid, ins[i]));
                        assert(mid[ins[i] as int] is Some);
                    }
                    lemma_refined_typ_reads(mid, old(self).graph@, ins, node_kind, typ@);
                }
            }
        }
        let next = self.graph.new_node(inputs, node_kind, typ);
        proof {
            if well_linked(mid, old(self).graph.next_uid()) {
                match next {
                    Ok(index) => {
                        lemma_linked_inserted(
                            mid,
                            self.graph@,
                            index,
                            ins,
                            node_kind,
                            old(self).graph.next_uid(),
                            self.graph@[index as int]->0.typ@,
                        );
                    },
                    Err(SoNError::TypTransitionNotAllowed) => {
                        lemma_linked_inserted(
                            mid,
                            self.graph@,
                            crate::nodes::graph::first_empty(mid) as usize,
                            ins,
                            node_kind,
                            old(self).graph.next_uid(),
                            typ@,
                        );
                    },
                    Err(_) => {},
                }
            }
            match next {
                Ok(index) => {
                    lemma_inserted_holds_pins(
                        mid,
                        self.graph@,
                        index,
                        ins,
                        node_kind,
                        old(self).graph.next_uid(),
                        self.graph@[index as int]->0.typ@,
                    );
                },
                Err(SoNError::TypTransitionNotAllowed) => {
                    lemma_inserted_holds_pins(
                        mid,
                        self.graph@,
                        crate::nodes::graph::first_empty(mid) as usize,
                        ins,
                        node_kind,
                        old(self).graph.next_uid(),
                        typ@,
                    );
                },
                Err(_) => {},
            }
            match next {
                Ok(index) => {
                    lemma_inserted_keeps_scope(
                        mid,
                        self.graph@,
                        index,
                        ins,
                        node_kind,
                        old(self).graph.next_uid(),
                        self.graph@[index as int]->0.typ@,
                    );
                },
                Err(SoNError::TypTransitionNotAllowed) => {
                    lemma_inserted_keeps_scope(
                        mid,
                        self.graph@,
                        crate::nodes::graph::first_empty(mid) as usize,
                        ins,
                        node_kind,
                        old(self).graph.next_uid(),
                        typ@,
                    );
                },
                Err(_) => {},
            }
            match next {
                Ok(index) => {
                    crate::nodes::graph::lemma_inserted_observes(
                        mid,
                        self.graph@,
                        index,
                        ins,
                        node_kind,
                        old(self).graph.next_uid(),
                        self.graph@[index as int]->0.typ@,
                    );
                },
                _ => {},
            }
            match next {
                Ok(index) => {
                    lemma_grown_inserted(
                        old(self).graph@,
                        mid,
                        self.graph@,
                        index,
                        ins,
                        node_kind,
                        self.graph@[index as int]->0.typ@,
                        old(self).graph.next_uid(),
                    );
                },
                Err(SoNError::TypTransitionNotAllowed) => {
                    lemma_grown_inserted(
                        old(self).graph@,
                        mid,
                        self.graph@,
                        crate::nodes::graph::first_empty(mid) as usize,
                        ins,
                        node_kind,
                        typ@,
                        old(self).graph.next_uid(),
                    );
                },
                Err(_) => {},
            }
        }
        let nid = match next {
            Ok(n) => n,
            Err(e) => {
                return Err(e);
            },
        };
        proof {
            assert forall|i: int| 0 <= i < ins.len() implies live(self.graph@, #[trigger] ins[i])
                && ins[i] != nid && (constant_node(old(self).graph@, ins[i]) ==> constant_node(
                self.graph@,
                ins[i],
            )) by {
                assert(live(mid, ins[i]));
                let cell = mid[ins[i] as int];
                assert(ins.contains(ins[i]));
                if constant_node(old(self).graph@, ins[i]) {
                    assert(constant_node(mid, ins[i]));
                    let made = self.graph@[ins[i] as int];
                }
            }
            if live(old(self).graph@, KEEP_ALIVE_NID) {
                assert(live(mid, KEEP_ALIVE_NID));
            }
        }
        Ok(nid)
    }

    /// As `add_node`, with rewrites nested to the depth `depth` at most.
    #[verifier::rlimit(100)]
    pub(crate) fn add_node_at(
        &mut self,
        inputs: Vec<usize>,
        node_kind: NodeKind,
        typ: Typ,
        depth: usize,
    ) -> (r: Result<usize, SoNError>)
        ensures
            final(self).same_but_arena(old(self)),
            final(self).grows_from(old(self)),
            r is Ok ==> scope_kept(old(self).graph@, final(self).graph@),
            pins_held(old(self).graph@, final(self).graph@),
            final(self).linked_from(old(self)),
            node_added(old(self), final(self), inputs@, node_kind, typ@, r),
            old(self).do_optimize && old(self).addable(inputs@, node_kind) && typ@.transition_allowed(
                refined_from(old(self).graph@, inputs@, node_kind, typ@),
            ) ==> node_peeped(old(self), final(self), inputs@, node_kind, typ@, depth, r),
            !old(self).addable(inputs@, node_kind) ==> r is Err && r->Err_0 is NodeIdNotExisting,
            depth > 0 && old(self).folding(inputs@, node_kind, typ@) && r is Ok
                ==> final(self).graph.next_uid() == old(self).graph.next_uid() + 2,
            old(self).unfolded(inputs@, node_kind, typ@, depth) ==> node_made(
                old(self),
                final(self),
                inputs@,
                node_kind,
                typ@,
                r,
            ),
            depth > 0 && old(self).folding(inputs@, node_kind, typ@) ==> constant_added(
                old(self).graph@,
                final(self).graph@,
                refined_from(old(self).graph@, inputs@, node_kind, typ@),
                (old(self).graph.next_uid() + 1) as usize,
                r,
            ),
        decreases depth, 2nat,
    {
        let ghost ins = inputs@;
        let nid = match self.make_node(inputs, node_kind, typ) {
            Ok(n) => n,
            Err(e) => {
                return Err(e);
            },
        };
        if !self.do_optimize {
            return Ok(nid);
        }
        let ghost made = self.graph@;
        let ghost first = nid;
        let ghost kept = old(self).unfolded(ins, node_kind, typ@, depth);
        let ghost folded = depth > 0 && old(self).folding(ins, node_kind, typ@);
        let ghost refined = refined_from(old(self).graph@, ins, node_kind, typ@);
        let ghost uid = old(self).graph.next_uid();
        proof {
            if old(self).plain(ins, node_kind, typ@) {
                if ins.len() >= 2 {
                    assert(made[ins[0] as int]->0.typ@ == old(self).graph@[ins[0] as int]->0.typ@);
                    assert(made[ins[1] as int]->0.typ@ == old(self).graph@[ins[1] as int]->0.typ@);
                }
                assert(settled(made, first));
            }
            if folded {
                assert(folds(made, first));
            }
        }
        let ghost made_state = *self;
        let looked_at = self.peephole_at(nid, depth);
        let ghost looked = *self;
        let ghost seen = looked_at;
        let nid = match looked_at {
            Ok(n) => n,
            Err(e) => {
                proof {
                    assert(peep_chain(
                        old(self),
                        made_state,
                        first,
                        looked,
                        seen,
                        self,
                        ins,
                        node_kind,
                        typ@,
                        depth,
                        Err(e),
                    ));
                }
                return Err(e);
            },
        };
        let ghost rewritten = self.graph@;
        proof {
            if kept {
                assert(nid == first && rewritten == made);
            }
        }
        match self.keep_node(nid) {
            Ok(_) => {},
            Err(e) => {
                proof {
                    assert(peep_chain(
                        old(self),
                        made_state,
                        first,
                        looked,
                        seen,
                        self,
                        ins,
                        node_kind,
                        typ@,
                        depth,
                        Err(e),
                    ));
                }
                return Err(e);
            },
        }
        let ghost pinned = self.graph@;
        proof {
            let held = self.graph@[nid as int]->0.outputs@;
            lemma_count_push(held.drop_last(), KEEP_ALIVE_NID, KEEP_ALIVE_NID);
            assert(held.drop_last().push(KEEP_ALIVE_NID) =~= held);
            lemma_scope_pinned(rewritten, self.graph@, nid);
        }
        self.drop_unused_nodes();
        let ghost swept = self.graph@;
        let ghost mut gone: Set<usize> = Set::empty();
        proof {
            gone = choose|gone: Set<usize>| crate::services::collector::swept(pinned, swept, gone);
            if kept {
                lemma_created_outlives_sweep(
                    old(self).graph@,
                    made,
                    pinned,
                    swept,
                    gone,
                    nid,
                    ins,
                    node_kind,
                    typ@,
                    uid,
                );
            }
            if folded {
                lemma_created_outlives_sweep(
                    made,
                    rewritten,
                    pinned,
                    swept,
                    gone,
                    nid,
                    Seq::empty(),
                    NodeKind::Constant,
                    refined,
                    (uid + 1) as usize,
                );
            }
        }
        proof {
            let held = pinned[nid as int]->0.outputs@;
            assert(count(held, KEEP_ALIVE_NID) > 0);
            let cell = swept[nid as int];
            let anchor = swept[KEEP_ALIVE_NID as int];
            assert(live(swept, nid) && live(swept, KEEP_ALIVE_NID));
        }
        match self.unkeep_node(nid) {
            Ok(_) => {},
            Err(e) => {
                return Err(e);
            },
        }
        proof {
            if nid != KEEP_ALIVE_NID {
                let a = rewritten[nid as int];
                let b = pinned[nid as int];
                let c = swept[nid as int];
                let d = self.graph@[nid as int];
                assert(d->0.same_but_outputs(&a->0));
            }
            assert(peep_chain(
                old(self),
                made_state,
                first,
                looked,
                seen,
                self,
                ins,
                node_kind,
                typ@,
                depth,
                Ok(nid),
            ));
            lemma_scope_released(swept, self.graph@, nid);
            if kept {
                lemma_created_released(
                    old(self).graph@,
                    made,
                    pinned,
                    swept,
                    gone,
                    self.graph@,
                    nid,
                    ins,
                    node_kind,
                    typ@,
                    uid,
                );
            }
            if folded {
                lemma_created_released(
                    made,
                    rewritten,
                    pinned,
                    swept,
                    gone,
                    self.graph@,
                    nid,
                    Seq::empty(),
                    NodeKind::Constant,
                    refined,
                    (uid + 1) as usize,
                );
                lemma_constant_stays(made, refined);
                lemma_constant_stays(old(self).graph@, refined);
            }
        }
        Ok(nid)
    }

    /// Creates a node whose seed type is `Bot`.
    pub fn add_node_unrefined(&mut self, inputs: Vec<usize>, node_kind: NodeKind) -> (r: Result<
        usize,
        SoNError,
    >)
        ensures
            final(self).same_but_arena(old(self)),
            final(self).grows_from(old(self)),
            r is Ok ==> scope_kept(old(self).graph@, final(self).graph@),
            pins_held(old(self).graph@, final(self).graph@),
            final(self).linked_from(old(self)),
            node_added(old(self), final(self), inputs@, node_kind, TypV::Bot, r),
            old(self).do_optimize && old(self).addable(inputs@, node_kind) && TypV::Bot.transition_allowed(
                refined_from(old(self).graph@, inputs@, node_kind, TypV::Bot),
            ) ==> node_peeped(old(self), final(self), inputs@, node_kind, TypV::Bot, REWRITE_DEPTH, r),
            !old(self).addable(inputs@, node_kind) ==> r is Err && r->Err_0 is NodeIdNotExisting,
            old(self).plain(inputs@, node_kind, TypV::Bot) ==> node_made(
                old(self),
                final(self),
                inputs@,
                node_kind,
                TypV::Bot,
                r,
            ),
            old(self).folding(inputs@, node_kind, TypV::Bot) && r is Ok
                ==> final(self).graph.next_uid() == old(self).graph.next_uid() + 2,
            old(self).folding(inputs@, node_kind, TypV::Bot) ==> constant_added(
                old(self).graph@,
                final(self).graph@,
                refined_from(old(self).graph@, inputs@, node_kind, TypV::Bot),
                (old(self).graph.next_uid() + 1) as usize,
                r,
            ),
    {
        self.add_node(inputs, node_kind, Typ::Bot)
    }

    /// Looks at the node `nid` once: a node whose type is a compile-time value
    /// gives way to a constant, and the rewrite catalogue is applied.  Returns
    /// the slot of the node to use in place of `nid`.
    ///
    /// A settled node is returned as it is, and nothing changes.  For a node
    /// whose type is a compile-time value, the constant that takes its place
    /// is created and returned.  On every other node the rewrite that the
    /// catalogue asks for is made, as `rewritten_by` says.
    pub fn peephole(&mut self, nid: usize) -> (r: Result<usize, SoNError>)
        ensures
            final(self).same_but_arena(old(self)),
            final(self).grows_from(old(self)),
            r is Ok ==> scope_kept(old(self).graph@, final(self).graph@),
            pins_held(old(self).graph@, final(self).graph@),
            final(self).linked_from(old(self)),
            settled(old(self).graph@, nid) ==> r == Ok::<usize, SoNError>(nid)
                && final(self).graph_same(old(self)),
            folds(old(self).graph@, nid) && live(old(self).graph@, KEEP_ALIVE_NID)
                ==> constant_added(
                old(self).graph@,
                final(self).graph@,
                old(self).graph@[nid as int]->0.typ@,
                old(self).graph.next_uid(),
                r,
            ),
            live(old(self).graph@, nid) && !folds(old(self).graph@, nid) ==> rewritten_by(
                old(self),
                final(self),
                nid,
                (REWRITE_DEPTH - 1) as usize,
                r,
            ),
            peeped(old(self), final(self), nid, REWRITE_DEPTH, r),
            !live(old(self).graph@, nid) ==> r is Err && final(self).graph@ == old(self).graph@,
            r is Err ==> r->Err_0 is NodeIdNotExisting || r->Err_0 is TypTransitionNotAllowed,
    {
        self.peephole_at(nid, REWRITE_DEPTH)
    }

    /// As `peephole`, with rewrites nested to the depth `depth` at most.
    pub(crate) fn peephole_at(&mut self, nid: usize, depth: usize) -> (r: Result<usize, SoNError>)
        ensures
            final(self).same_but_arena(old(self)),
            final(self).grows_from(old(self)),
            r is Ok ==> scope_kept(old(self).graph@, final(self).graph@),
            pins_held(old(self).graph@, final(self).graph@),
            final(self).linked_from(old(self)),
            settled(old(self).graph@, nid) ==> r == Ok::<usize, SoNError>(nid)
                && final(self).graph_same(old(self)),
            depth > 0 && folds(old(self).graph@, nid) && live(old(self).graph@, KEEP_ALIVE_NID)
                && r is Ok ==> final(self).graph.next_uid() == old(self).graph.next_uid() + 1,
            depth == 0 && live(old(self).graph@, nid) ==> r == Ok::<usize, SoNError>(nid)
                && final(self).graph_same(old(self)),
            depth > 0 && folds(old(self).graph@, nid) && live(old(self).graph@, KEEP_ALIVE_NID)
                ==> constant_added(
                old(self).graph@,
                final(self).graph@,
                old(self).graph@[nid as int]->0.typ@,
                old(self).graph.next_uid(),
                r,
            ),
            depth > 0 && live(old(self).graph@, nid) && !folds(old(self).graph@, nid) ==> rewritten_by(
                old(self),
                final(self),
                nid,
                (depth - 1) as usize,
                r,
            ),
            peeped(old(self), final(self), nid, depth, r),
            !live(old(self).graph@, nid) ==> r is Err && final(self).graph@ == old(self).graph@,
            r is Err ==> r->Err_0 is NodeIdNotExisting || r->Err_0 is TypTransitionNotAllowed,
        decreases depth, 1nat,
    {
        let (materialize, typ) = match self.graph.get_node(nid) {
            Ok(node) => (
                node.typ_ref().is_constant() && !matches!(node.node_kind, NodeKind::Constant),
                node.typ(),
            ),
            Err(e) => {
                return Err(e);
            },
        };
        let mut nid = nid;
        if materialize && depth > 0 {
            proof {
                lemma_constant_stays(old(self).graph@, typ@);
            }
            nid = match self.add_node_at(Vec::new(), NodeKind::Constant, typ, depth - 1) {
                Ok(n) => n,
                Err(e) => {
                    return Err(e);
                },
            };
        }
        self.idealize_at(nid, depth)
    }
}

} // verus!
