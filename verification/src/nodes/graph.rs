use crate::errors::son_error::SoNError;
use crate::nodes::node::{Node, NodeKind};
use crate::services::typ_refiner::{refined_from, refined_typ, refiner_inputs_live, refiner_reads};
use crate::typ::typ::{Typ, TypV};
use vstd::prelude::*;

verus! {

/// Number of times `x` occurs in `s`.
pub open spec fn count(s: Seq<usize>, x: usize) -> nat
    decreases s.len(),
{
    if s.len() == 0 {
        0
    } else {
        count(s.drop_last(), x) + if s.last() == x {
            1nat
        } else {
            0nat
        }
    }
}

/// Position of the last occurrence of `x` in `s`, or -1 where there is none.
pub open spec fn last_index_of(s: Seq<usize>, x: usize) -> int
    decreases s.len(),
{
    if s.len() == 0 {
        -1
    } else if s.last() == x {
        s.len() - 1
    } else {
        last_index_of(s.drop_last(), x)
    }
}

/// `s` without the last occurrence of `x`.
pub open spec fn remove_last(s: Seq<usize>, x: usize) -> Seq<usize> {
    let i = last_index_of(s, x);
    if i >= 0 {
        s.remove(i)
    } else {
        s
    }
}

/// `n` copies of `x`.
pub open spec fn repeat(x: usize, n: nat) -> Seq<usize> {
    Seq::new(n, |i: int| x)
}

/// The slot `nid` lies in the arena and holds a node.
pub open spec fn live(g: Seq<Option<Node>>, nid: usize) -> bool {
    nid < g.len() && g[nid as int] is Some
}

/// Every id of `ids` names a node of the arena.
pub open spec fn all_live(g: Seq<Option<Node>>, ids: Seq<usize>) -> bool {
    forall|k: int| 0 <= k < ids.len() ==> live(g, #[trigger] ids[k])
}

/// How often the node in slot `n` lists `d` as an input; 0 where `n` is empty.
pub open spec fn in_mult(g: Seq<Option<Node>>, n: usize, d: usize) -> nat {
    if live(g, n) {
        count(g[n as int]->0.inputs@, d)
    } else {
        0
    }
}

/// How often the node in slot `d` lists `n` as an observer; 0 where `d` is empty.
pub open spec fn out_mult(g: Seq<Option<Node>>, d: usize, n: usize) -> nat {
    if live(g, d) {
        count(g[d as int]->0.outputs@, n)
    } else {
        0
    }
}

/// The edge-count invariant: a node lists a definition as input exactly as
/// often as that definition lists the node as observer.  As an empty slot
/// counts for nothing, every input and every observer of a node is a node.
pub open spec fn edges_match(g: Seq<Option<Node>>) -> bool {
    forall|n: usize, d: usize| #[trigger] in_mult(g, n, d) == out_mult(g, d, n)
}

/// The first empty slot at or after `i`, or the length of the arena.
pub open spec fn first_empty_from(g: Seq<Option<Node>>, i: int) -> int
    decreases g.len() - i,
{
    if i < 0 || i >= g.len() {
        g.len() as int
    } else if g[i] is None {
        i
    } else {
        first_empty_from(g, i + 1)
    }
}

/// The slot that the next node will take.
pub open spec fn first_empty(g: Seq<Option<Node>>) -> int {
    first_empty_from(g, 0)
}

/// The nodes of the arena in slot order.
pub open spec fn live_nodes(g: Seq<Option<Node>>) -> Seq<Node>
    decreases g.len(),
{
    if g.len() == 0 {
        Seq::empty()
    } else {
        match g.last() {
            Some(n) => live_nodes(g.drop_last()).push(n),
            None => live_nodes(g.drop_last()),
        }
    }
}

/// `new` is `old` where every node got `nid` appended to its observers once
/// for each time that `deps` names it.
pub open spec fn outputs_extended(
    old: Seq<Option<Node>>,
    new: Seq<Option<Node>>,
    nid: usize,
    deps: Seq<usize>,
) -> bool {
    &&& new.len() == old.len()
    &&& forall|j: usize|
        j < old.len() ==> match #[trigger] old[j as int] {
            None => new[j as int] is None,
            Some(o) => new[j as int] is Some && new[j as int]->0.same_but_outputs(&o)
                && new[j as int]->0.outputs@ == o.outputs@ + repeat(nid, count(deps, j)),
        }
}

/// `new` is `old` after a node of kind `kind` with the inputs `inputs`, the
/// unique id `uid` and the type `typ` was placed in slot `index`, and was
/// made an observer of each of its inputs.
pub open spec fn inserted(
    old: Seq<Option<Node>>,
    new: Seq<Option<Node>>,
    index: usize,
    inputs: Seq<usize>,
    kind: NodeKind,
    uid: usize,
    typ: TypV,
) -> bool {
    &&& index <= old.len()
    &&& new.len() == if index < old.len() {
        old.len()
    } else {
        old.len() + 1
    }
    &&& new[index as int] is Some
    &&& new[index as int]->0.node_kind == kind
    &&& new[index as int]->0.inputs@ == inputs
    &&& new[index as int]->0.outputs@ == Seq::<usize>::empty()
    &&& new[index as int]->0.uid == uid
    &&& new[index as int]->0.nid == index
    &&& new[index as int]->0.typ@ == typ
    &&& forall|j: usize|
        j < old.len() && j != index ==> match #[trigger] old[j as int] {
            None => new[j as int] is None,
            Some(o) => new[j as int] is Some && new[j as int]->0.same_but_outputs(&o)
                && new[j as int]->0.outputs@ == o.outputs@ + repeat(index, count(inputs, j)),
        }
}

/// `new` is `old` where the node in slot `nid` lost the last occurrence of
/// `dep_nid` among its inputs and the node in slot `dep_nid` lost the last
/// occurrence of `nid` among its observers.
pub open spec fn edge_removed(
    old: Seq<Option<Node>>,
    new: Seq<Option<Node>>,
    nid: usize,
    dep_nid: usize,
) -> bool {
    &&& new.len() == old.len()
    &&& forall|j: usize|
        j < old.len() && j != nid && j != dep_nid ==> #[trigger] new[j as int] == old[j as int]
    &&& new[nid as int] is Some
    &&& new[dep_nid as int] is Some
    &&& new[nid as int]->0.node_kind == old[nid as int]->0.node_kind
    &&& new[nid as int]->0.uid == old[nid as int]->0.uid
    &&& new[nid as int]->0.nid == old[nid as int]->0.nid
    &&& new[nid as int]->0.typ@ == old[nid as int]->0.typ@
    &&& new[dep_nid as int]->0.node_kind == old[dep_nid as int]->0.node_kind
    &&& new[dep_nid as int]->0.uid == old[dep_nid as int]->0.uid
    &&& new[dep_nid as int]->0.nid == old[dep_nid as int]->0.nid
    &&& new[dep_nid as int]->0.typ@ == old[dep_nid as int]->0.typ@
    &&& new[nid as int]->0.inputs@ == remove_last(old[nid as int]->0.inputs@, dep_nid)
    &&& new[dep_nid as int]->0.outputs@ == remove_last(old[dep_nid as int]->0.outputs@, nid)
    &&& nid != dep_nid ==> new[nid as int]->0.outputs == old[nid as int]->0.outputs
        && new[dep_nid as int]->0.inputs == old[dep_nid as int]->0.inputs
}

/// `new` is `old` where the node in slot `user` got `def` appended to its
/// inputs and the node in slot `def` got `user` appended to its observers.
pub open spec fn edge_added(
    old: Seq<Option<Node>>,
    new: Seq<Option<Node>>,
    user: usize,
    def: usize,
) -> bool {
    &&& new.len() == old.len()
    &&& forall|j: usize|
        j < old.len() && j != user && j != def ==> #[trigger] new[j as int] == old[j as int]
    &&& new[user as int] is Some
    &&& new[def as int] is Some
    &&& new[user as int]->0.node_kind == old[user as int]->0.node_kind
    &&& new[user as int]->0.uid == old[user as int]->0.uid
    &&& new[user as int]->0.nid == old[user as int]->0.nid
    &&& new[user as int]->0.typ@ == old[user as int]->0.typ@
    &&& new[def as int]->0.node_kind == old[def as int]->0.node_kind
    &&& new[def as int]->0.uid == old[def as int]->0.uid
    &&& new[def as int]->0.nid == old[def as int]->0.nid
    &&& new[def as int]->0.typ@ == old[def as int]->0.typ@
    &&& new[user as int]->0.inputs@ == old[user as int]->0.inputs@.push(def)
    &&& new[def as int]->0.outputs@ == old[def as int]->0.outputs@.push(user)
    &&& user != def ==> new[user as int]->0.outputs == old[user as int]->0.outputs
        && new[def as int]->0.inputs == old[def as int]->0.inputs
}

/// `s` without any occurrence of `x`.
pub open spec fn without(s: Seq<usize>, x: usize) -> Seq<usize>
    decreases s.len(),
{
    if s.len() == 0 {
        Seq::empty()
    } else if s.last() == x {
        without(s.drop_last(), x)
    } else {
        without(s.drop_last(), x).push(s.last())
    }
}

/// Number of nodes in the arena.
pub open spec fn live_count(g: Seq<Option<Node>>) -> nat
    decreases g.len(),
{
    if g.len() == 0 {
        0
    } else {
        live_count(g.drop_last()) + if g.last() is Some {
            1nat
        } else {
            0nat
        }
    }
}

/// What is left without `x` is no longer, holds `x` no more, and holds every
/// other value as often as before.
pub proof fn lemma_without(s: Seq<usize>, x: usize)
    ensures
        without(s, x).len() <= s.len(),
        forall|y: usize| count(without(s, x), y) == if y == x { 0 } else { count(s, y) },
        count(s, x) == 0 ==> without(s, x) == s,
    decreases s.len(),
{
    if s.len() > 0 {
        lemma_without(s.drop_last(), x);
        assert forall|y: usize| count(without(s, x), y) == if y == x { 0 } else { count(s, y) } by {
            if s.last() != x {
                lemma_count_push(without(s.drop_last(), x), s.last(), y);
            }
        }
        if count(s, x) == 0 {
            assert(s.drop_last().push(s.last()) =~= s);
        }
    } else {
        assert(without(s, x) =~= s);
    }
}

/// Changing a cell changes the number of nodes by what the cell gains or loses.
pub proof fn lemma_live_count_update(g: Seq<Option<Node>>, i: int, cell: Option<Node>)
    requires
        0 <= i < g.len(),
    ensures
        live_count(g.update(i, cell)) + (if g[i] is Some { 1nat } else { 0nat })
            == live_count(g) + (if cell is Some { 1nat } else { 0nat }),
    decreases g.len(),
{
    if i == g.len() - 1 {
        assert(g.update(i, cell).drop_last() =~= g.drop_last());
    } else {
        lemma_live_count_update(g.drop_last(), i, cell);
        assert(g.update(i, cell).drop_last() =~= g.drop_last().update(i, cell));
    }
}

/// A list with one more element at its end holds that element once more.
pub proof fn lemma_count_push(s: Seq<usize>, y: usize, x: usize)
    ensures
        count(s.push(y), x) == count(s, x) + if y == x {
            1nat
        } else {
            0nat
        },
{
    assert(s.push(y).drop_last() =~= s);
}

/// A list that loses an element holds that element once less.
pub proof fn lemma_count_remove(s: Seq<usize>, i: int, x: usize)
    requires
        0 <= i < s.len(),
    ensures
        count(s.remove(i), x) + (if s[i] == x {
            1nat
        } else {
            0nat
        }) == count(s, x),
    decreases s.len(),
{
    if i == s.len() - 1 {
        assert(s.remove(i) =~= s.drop_last());
    } else {
        lemma_count_remove(s.drop_last(), i, x);
        assert(s.remove(i).drop_last() =~= s.drop_last().remove(i));
        assert(s.remove(i).last() == s.last());
    }
}

/// A list followed by `n` copies of `y` holds `y` `n` times more.
pub proof fn lemma_count_append_repeat(s: Seq<usize>, y: usize, n: nat, x: usize)
    ensures
        count(s + repeat(y, n), x) == count(s, x) + if y == x {
            n
        } else {
            0nat
        },
    decreases n,
{
    if n == 0 {
        assert(s + repeat(y, n) =~= s);
    } else {
        lemma_count_append_repeat(s, y, (n - 1) as nat, x);
        assert(s + repeat(y, n) =~= (s + repeat(y, (n - 1) as nat)).push(y));
        lemma_count_push(s + repeat(y, (n - 1) as nat), y, x);
    }
}

/// The last occurrence of a value is an occurrence, no occurrence follows it,
/// and there is one if and only if the list holds the value.
pub proof fn lemma_last_index_of(s: Seq<usize>, x: usize)
    ensures
        -1 <= last_index_of(s, x) < s.len(),
        last_index_of(s, x) >= 0 ==> s[last_index_of(s, x)] == x,
        forall|k: int| last_index_of(s, x) < k < s.len() ==> s[k] != x,
        last_index_of(s, x) >= 0 <==> count(s, x) > 0,
    decreases s.len(),
{
    if s.len() > 0 {
        lemma_last_index_of(s.drop_last(), x);
        assert forall|k: int| last_index_of(s, x) < k < s.len() implies s[k] != x by {
            if k < s.len() - 1 {
                assert(s.drop_last()[k] == s[k]);
            }
        }
    }
}

/// Removing the last occurrence lowers the count of that value by one, if
/// there is one to remove, and leaves every other count alone.
pub proof fn lemma_count_remove_last(s: Seq<usize>, x: usize, y: usize)
    ensures
        count(remove_last(s, x), y) == if x == y && count(s, x) > 0 {
            (count(s, y) - 1) as nat
        } else {
            count(s, y)
        },
{
    lemma_last_index_of(s, x);
    if last_index_of(s, x) >= 0 {
        lemma_count_remove(s, last_index_of(s, x), y);
    }
}

/// The arena: the cells of the graph by slot, an empty cell where a node was
/// dropped, and the counter of the unique ids.
pub struct Graph {
    _graph: Vec<Option<Node>>,
    _node_id_counter: usize,
}

impl View for Graph {
    type V = Seq<Option<Node>>;

    /// The cells of the arena, by slot.
    closed spec fn view(&self) -> Seq<Option<Node>> {
        self._graph@
    }
}

/// Removes every occurrence of `x` from `v`.
pub fn remove_all(v: &mut Vec<usize>, x: usize)
    ensures
        final(v)@ == without(old(v)@, x),
{
    let mut kept: Vec<usize> = Vec::new();
    let mut i: usize = 0;
    while i < v.len()
        invariant
            i <= v.len(),
            kept@ == without(v@.subrange(0, i as int), x),
        decreases v.len() - i,
    {
        assert(v@.subrange(0, i + 1).drop_last() =~= v@.subrange(0, i as int));
        if v[i] != x {
            kept.push(v[i]);
        }
        i += 1;
    }
    assert(v@.subrange(0, i as int) =~= v@);
    *v = kept;
}

/// Position of the last occurrence of `x` in `v`.
fn last_position(v: &Vec<usize>, x: usize) -> (r: Option<usize>)
    ensures
        match r {
            Some(i) => i < v@.len() && i as int == last_index_of(v@, x),
            None => last_index_of(v@, x) == -1,
        },
{
    assert(v@.subrange(0, v@.len() as int) =~= v@);
    let mut i: usize = v.len();
    while i > 0
        invariant
            i <= v.len(),
            last_index_of(v@, x) == last_index_of(v@.subrange(0, i as int), x),
        decreases i,
    {
        if v[i - 1] == x {
            assert(v@.subrange(0, i as int).last() == x);
            return Some(i - 1);
        }
        assert(v@.subrange(0, i as int).drop_last() =~= v@.subrange(0, i - 1));
        i -= 1;
    }
    assert(v@.subrange(0, 0).len() == 0);
    None
}

impl Graph {
    /// The unique id that the next node will get.
    pub closed spec fn next_uid(&self) -> usize {
        self._node_id_counter
    }

    /// Well-formedness of the arena: the edge-count invariant holds, every node
    /// knows its slot, and the unique ids are distinct and below the counter.
    pub open spec fn wf(&self) -> bool {
        &&& edges_match(self@)
        &&& forall|n: usize|
            live(self@, n) ==> (#[trigger] self@[n as int])->0.nid == n && self@[n as int]->0.uid
                < self.next_uid()
        &&& forall|n: usize, m: usize|
            live(self@, n) && live(self@, m) && n != m ==> (#[trigger] self@[n as int])->0.uid != (
            #[trigger] self@[m as int])->0.uid
    }

    /// A node with these inputs and this kind can be created: the unique ids
    /// are not used up, every input names a node, and the inputs that the
    /// refiner reads for this kind are given.
    pub open spec fn creatable(&self, inputs: Seq<usize>, kind: NodeKind) -> bool {
        &&& self.next_uid() < usize::MAX
        &&& all_live(self@, inputs)
        &&& inputs.len() >= refiner_reads(kind)
    }

    /// An arena over the given cells, whose unique ids start at 0.
    pub fn from(g: Vec<Option<Node>>) -> (r: Graph)
        ensures
            r@ == g@,
            r.next_uid() == 0,
    {
        Graph { _graph: g, _node_id_counter: 0 }
    }

    /// An arena without cells.
    pub fn new() -> (r: Graph)
        ensures
            r@ == Seq::<Option<Node>>::empty(),
            r.next_uid() == 0,
            r.wf(),
    {
        let r = Graph::from(Vec::new());
        assert forall|n: usize, d: usize| #[trigger] in_mult(r@, n, d) == out_mult(r@, d, n) by {}
        r
    }

    /// Number of slots, empty ones included.
    pub fn len(&self) -> (r: usize)
        ensures
            r == self@.len(),
    {
        self._graph.len()
    }

    /// The cell in slot `i`, or `None` where the arena has no such slot.
    pub fn get(&self, i: usize) -> (r: Option<&Option<Node>>)
        ensures
            match r {
                Some(c) => i < self@.len() && *c == self@[i as int],
                None => i >= self@.len(),
            },
    {
        if i < self._graph.len() {
            Some(&self._graph[i])
        } else {
            None
        }
    }

    /// The cell in slot `i`, to be changed in place.
    pub fn get_mut(&mut self, i: usize) -> (r: Option<&mut Option<Node>>)
        ensures
            final(self).next_uid() == old(self).next_uid(),
            match r {
                Some(c) => i < old(self)@.len() && *c == old(self)@[i as int]
                    && final(self)@ == old(self)@.update(i as int, *final(c)),
                None => i >= old(self)@.len() && final(self)@ == old(self)@,
            },
    {
        if i < self._graph.len() {
            Some(&mut self._graph[i])
        } else {
            None
        }
    }

    /// Appends a cell to the arena.
    pub fn push(&mut self, cell: Option<Node>)
        ensures
            final(self).next_uid() == old(self).next_uid(),
            final(self)@ == old(self)@.push(cell),
    {
        self._graph.push(cell);
    }

    /// Creates a node in the first empty slot, with a fresh unique id, makes it
    /// an observer of each of its inputs, and refines its type.
    ///
    /// Nothing changes when the node cannot be created.  When the refined type
    /// is not at or above `typ`, the node stays in the arena with the type `typ`.
    pub fn new_node(&mut self, inputs: Vec<usize>, node_kind: NodeKind, typ: Typ) -> (r: Result<
        usize,
        SoNError,
    >)
        ensures
            old(self).wf() ==> final(self).wf(),
            match r {
                Ok(index) => {
                    &&& old(self).creatable(inputs@, node_kind)
                    &&& index == first_empty(old(self)@)
                    &&& !live(old(self)@, index)
                    &&& final(self).next_uid() == old(self).next_uid() + 1
                    &&& live(final(self)@, index)
                    &&& typ@.transition_allowed(final(self)@[index as int]->0.typ@)
                    &&& inserted(
                        old(self)@,
                        final(self)@,
                        index,
                        inputs@,
                        node_kind,
                        old(self).next_uid(),
                        final(self)@[index as int]->0.typ@,
                    )
                    &&& final(self)@[index as int]->0.typ@ == refined_from(
                        old(self)@,
                        inputs@,
                        node_kind,
                        typ@,
                    )
                },
                Err(SoNError::NodeIdNotExisting) => {
                    &&& !old(self).creatable(inputs@, node_kind)
                    &&& final(self)@ == old(self)@
                    &&& final(self).next_uid() == old(self).next_uid()
                },
                Err(SoNError::TypTransitionNotAllowed) => {
                    &&& old(self).creatable(inputs@, node_kind)
                    &&& 0 <= first_empty(old(self)@) <= old(self)@.len()
                    &&& !live(old(self)@, first_empty(old(self)@) as usize)
                    &&& final(self).next_uid() == old(self).next_uid() + 1
                    &&& inserted(
                        old(self)@,
                        final(self)@,
                        first_empty(old(self)@) as usize,
                        inputs@,
                        node_kind,
                        old(self).next_uid(),
                        typ@,
                    )
                    &&& !typ@.transition_allowed(
                        refined_from(old(self)@, inputs@, node_kind, typ@),
                    )
                },
                Err(_) => false,
            },
    {
        let index = self.find_first_empty_cell();
        if self._node_id_counter == usize::MAX || inputs.len() < reads_of(&node_kind) {
            return Err(SoNError::NodeIdNotExisting);
        }
        match self.add_reverse_dependencies_br(index, &inputs) {
            Ok(_) => {},
            Err(e) => {
                return Err(e);
            },
        }
        let ghost mid = self@;
        let ghost ins = inputs@;
        let ghost kind = node_kind;
        let uid = self._node_id_counter;
        let mut node = Node::new(node_kind, uid, index, typ);
        node.inputs = inputs;
        let ghost seeded = node;
        self._node_id_counter = uid + 1;
        if index == self._graph.len() {
            self._graph.push(Some(node));
        } else {
            self._graph[index] = Some(node);
        }
        proof {
            assert(inserted(old(self)@, self@, index, ins, kind, uid, seeded.typ@)) by {
                assert forall|j: usize| j < old(self)@.len()
                    && j != index implies match #[trigger] old(self)@[j as int] {
                    None => self@[j as int] is None,
                    Some(o) => self@[j as int] is Some && self@[j as int]->0.same_but_outputs(&o)
                        && self@[j as int]->0.outputs@ == o.outputs@ + repeat(index, count(ins, j)),
                } by {
                    assert(self@[j as int] == mid[j as int]);
                }
            }
            if old(self).wf() {
                lemma_inserted_wf(old(self)@, self@, index, ins, kind, uid, seeded.typ@);
                lemma_inserted_ids(old(self)@, self@, index, ins, kind, uid, seeded.typ@);
            }
            assert(refiner_inputs_live(self@, seeded)) by {
                assert forall|k: int| 0 <= k < refiner_reads(seeded.node_kind) implies k
                    < seeded.inputs@.len() && live(self@, #[trigger] seeded.inputs@[k]) by {
                    assert(live(old(self)@, ins[k]));
                    assert(old(self)@[ins[k] as int] is Some);
                }
            }
            assert(refined_typ(self@, seeded) == refined_typ(old(self)@, seeded)) by {
                if refiner_reads(seeded.node_kind) >= 1 {
                    assert(live(old(self)@, ins[0]));
                    assert(old(self)@[ins[0] as int] is Some);
                }
                if refiner_reads(seeded.node_kind) >= 2 {
                    assert(live(old(self)@, ins[1]));
                    assert(old(self)@[ins[1] as int] is Some);
                }
                lemma_refined_typ_reads(
                    old(self)@,
                    self@,
                    seeded.inputs@,
                    seeded.node_kind,
                    seeded.typ@,
                );
            }
        }
        let refined = match &self._graph[index] {
            Some(n) => match self.compute_refined_typ(n) {
                Ok(t) => t,
                Err(e) => {
                    return Err(e);
                },
            },
            None => {
                return Err(SoNError::NodeIdNotExisting);
            },
        };
        let ghost placed = self@;
        match &mut self._graph[index] {
            Some(n) => match n.refine_typ(refined) {
                Ok(_) => {},
                Err(e) => {
                    assert(self@ =~= placed);
                    return Err(e);
                },
            },
            None => {},
        }
        proof {
            assert(inserted(old(self)@, self@, index, ins, kind, uid, self@[index as int]->0.typ@))
                by {
                assert forall|j: usize| j < old(self)@.len()
                    && j != index implies match #[trigger] old(self)@[j as int] {
                    None => self@[j as int] is None,
                    Some(o) => self@[j as int] is Some && self@[j as int]->0.same_but_outputs(&o)
                        && self@[j as int]->0.outputs@ == o.outputs@ + repeat(index, count(ins, j)),
                } by {
                    assert(self@[j as int] == placed[j as int]);
                }
            }
            if old(self).wf() {
                lemma_inserted_wf(
                    old(self)@,
                    self@,
                    index,
                    ins,
                    kind,
                    uid,
                    self@[index as int]->0.typ@,
                );
                lemma_inserted_ids(
                    old(self)@,
                    self@,
                    index,
                    ins,
                    kind,
                    uid,
                    self@[index as int]->0.typ@,
                );
            }
        }
        Ok(index)
    }

    /// The nodes of the arena in slot order; empty slots are passed over.
    pub fn graph_iter(&self) -> (r: Vec<&Node>)
        ensures
            r@.len() == live_nodes(self@).len(),
            forall|k: int| 0 <= k < r@.len() ==> *r@[k] == live_nodes(self@)[k],
    {
        let mut out: Vec<&Node> = Vec::new();
        let mut i: usize = 0;
        while i < self._graph.len()
            invariant
                i <= self._graph.len(),
                out@.len() == live_nodes(self@.subrange(0, i as int)).len(),
                forall|k: int|
                    0 <= k < out@.len() ==> *out@[k] == live_nodes(self@.subrange(0, i as int))[k],
            decreases self._graph.len() - i,
        {
            assert(self@.subrange(0, i + 1).drop_last() =~= self@.subrange(0, i as int));
            if let Some(n) = &self._graph[i] {
                out.push(n);
            }
            i += 1;
        }
        assert(self@.subrange(0, i as int) =~= self@);
        out
    }

    /// The nodes of the arena in slot order; empty slots are passed over.
    pub fn graph_iter_mut(&mut self) -> (r: Vec<&Node>)
        ensures
            final(self)@ == old(self)@,
            final(self).next_uid() == old(self).next_uid(),
            r@.len() == live_nodes(old(self)@).len(),
            forall|k: int| 0 <= k < r@.len() ==> *r@[k] == live_nodes(old(self)@)[k],
    {
        self.graph_iter()
    }

    /// Removes one edge: the node `nid` no longer depends on `dep_nid`.  The last
    /// occurrence is removed on either side, so that earlier inputs keep their
    /// positions.  Nothing changes unless both nodes exist.
    pub fn remove_dependency_br(&mut self, nid: usize, dep_nid: usize) -> (r: Result<(), SoNError>)
        ensures
            final(self).next_uid() == old(self).next_uid(),
            old(self).wf() ==> final(self).wf(),
            match r {
                Ok(_) => live(old(self)@, nid) && live(old(self)@, dep_nid) && edge_removed(
                    old(self)@,
                    final(self)@,
                    nid,
                    dep_nid,
                ),
                Err(e) => e is NodeIdNotExisting && !(live(old(self)@, nid) && live(
                    old(self)@,
                    dep_nid,
                )) && final(self)@ == old(self)@,
            },
    {
        if !self.node_exists(nid) || !self.node_exists(dep_nid) {
            return Err(SoNError::NodeIdNotExisting);
        }
        match &mut self._graph[nid] {
            Some(node) => {
                if let Some(pos) = last_position(&node.inputs, dep_nid) {
                    node.inputs.remove(pos);
                }
            },
            None => {},
        }
        match &mut self._graph[dep_nid] {
            Some(dep) => {
                if let Some(pos) = last_position(&dep.outputs, nid) {
                    dep.outputs.remove(pos);
                }
            },
            None => {},
        }
        proof {
            assert(edge_removed(old(self)@, self@, nid, dep_nid));
            if old(self).wf() {
                lemma_edge_removed_wf(old(self)@, self@, nid, dep_nid);
            }
        }
        Ok(())
    }

    /// Adds one edge: the node `nid` now depends on `dep_nid`, which is appended
    /// to its inputs, as `nid` is to the observers of `dep_nid`.  Nothing
    /// changes unless both nodes exist.
    pub fn add_dependency_br(&mut self, nid: usize, dep_nid: usize) -> (r: Result<(), SoNError>)
        ensures
            final(self).next_uid() == old(self).next_uid(),
            old(self).wf() ==> final(self).wf(),
            match r {
                Ok(_) => live(old(self)@, nid) && live(old(self)@, dep_nid) && edge_added(
                    old(self)@,
                    final(self)@,
                    nid,
                    dep_nid,
                ),
                Err(e) => e is NodeIdNotExisting && !(live(old(self)@, nid) && live(
                    old(self)@,
                    dep_nid,
                )) && final(self)@ == old(self)@,
            },
    {
        if !self.node_exists(nid) || !self.node_exists(dep_nid) {
            return Err(SoNError::NodeIdNotExisting);
        }
        match &mut self._graph[dep_nid] {
            Some(dep) => {
                dep.outputs.push(nid);
            },
            None => {},
        }
        match &mut self._graph[nid] {
            Some(node) => {
                node.inputs.push(dep_nid);
            },
            None => {},
        }
        proof {
            assert(edge_added(old(self)@, self@, nid, dep_nid));
            if old(self).wf() {
                lemma_edge_added_wf(old(self)@, self@, nid, dep_nid);
            }
        }
        Ok(())
    }

    /// Makes `nid` an observer of every node that `deps` names, once for each
    /// time it is named.  Nothing changes unless all of them exist.
    pub fn add_reverse_dependencies_br(&mut self, nid: usize, deps: &Vec<usize>) -> (r: Result<
        (),
        SoNError,
    >)
        ensures
            final(self).next_uid() == old(self).next_uid(),
            match r {
                Ok(_) => all_live(old(self)@, deps@) && outputs_extended(
                    old(self)@,
                    final(self)@,
                    nid,
                    deps@,
                ),
                Err(e) => e is NodeIdNotExisting && !all_live(old(self)@, deps@) && final(self)@
                    == old(self)@,
            },
    {
        let mut k: usize = 0;
        while k < deps.len()
            invariant
                k <= deps.len(),
                forall|i: int| 0 <= i < k ==> live(self@, #[trigger] deps@[i]),
            decreases deps.len() - k,
        {
            if !self.node_exists(deps[k]) {
                return Err(SoNError::NodeIdNotExisting);
            }
            k += 1;
        }
        let mut k: usize = 0;
        assert(deps@.take(0) =~= Seq::<usize>::empty());
        assert forall|j: usize| j < old(self)@.len() implies match #[trigger] old(self)@[j as int] {
            None => self@[j as int] is None,
            Some(o) => self@[j as int] is Some && self@[j as int]->0.same_but_outputs(&o)
                && self@[j as int]->0.outputs@ == o.outputs@ + repeat(
                nid,
                count(deps@.take(0), j),
            ),
        } by {
            if old(self)@[j as int] is Some {
                assert(old(self)@[j as int]->0.outputs@
                    + repeat(nid, 0) =~= old(self)@[j as int]->0.outputs@);
            }
        }
        while k < deps.len()
            invariant
                k <= deps.len(),
                all_live(old(self)@, deps@),
                self._node_id_counter == old(self)._node_id_counter,
                outputs_extended(old(self)@, self@, nid, deps@.take(k as int)),
            decreases deps.len() - k,
        {
            let id = deps[k];
            let ghost before = self@;
            assert(live(old(self)@, deps@[k as int]));
            assert(old(self)@[id as int] is Some);
            match &mut self._graph[id] {
                Some(def) => {
                    def.outputs.push(nid);
                },
                None => {},
            }
            proof {
                assert(deps@.take(k + 1) =~= deps@.take(k as int).push(id));
                assert forall|j: usize| j < old(self)@.len()
                    implies match #[trigger] old(self)@[j as int] {
                    None => self@[j as int] is None,
                    Some(o) => self@[j as int] is Some && self@[j as int]->0.same_but_outputs(&o)
                        && self@[j as int]->0.outputs@ == o.outputs@ + repeat(
                        nid,
                        count(deps@.take(k + 1), j),
                    ),
                } by {
                    lemma_count_push(deps@.take(k as int), id, j);
                    if old(self)@[j as int] is Some {
                        let o = old(self)@[j as int]->0;
                        if j == id {
                            assert(self@[j as int]->0.outputs@ =~= o.outputs@ + repeat(
                                nid,
                                count(deps@.take(k + 1), j),
                            ));
                        } else {
                            assert(self@[j as int] == before[j as int]);
                        }
                    } else {
                        assert(self@[j as int] == before[j as int]);
                    }
                }
            }
            k += 1;
        }
        assert(deps@.take(k as int) =~= deps@);
        Ok(())
    }

    /// Appends `deps` to the inputs of the node `nid`.
    pub fn add_dependencies_br(&mut self, nid: usize, deps: &Vec<usize>) -> (r: Result<
        (),
        SoNError,
    >)
        ensures
            final(self).next_uid() == old(self).next_uid(),
            match r {
                Ok(_) => {
                    &&& live(old(self)@, nid)
                    &&& final(self)@.len() == old(self)@.len()
                    &&& forall|j: usize|
                        j < old(self)@.len() && j != nid ==> #[trigger] final(self)@[j as int]
                            == old(self)@[j as int]
                    &&& final(self)@[nid as int] is Some
                    &&& final(self)@[nid as int]->0.same_but_inputs(&old(self)@[nid as int]->0)
                    &&& final(self)@[nid as int]->0.inputs@ == old(self)@[nid as int]->0.inputs@
                        + deps@
                },
                Err(e) => e is NodeIdNotExisting && !live(old(self)@, nid)
                    && final(self)@ == old(self)@,
            },
    {
        if !self.node_exists(nid) {
            return Err(SoNError::NodeIdNotExisting);
        }
        let mut tail = deps.clone();
        assert(tail@ =~= deps@);
        match &mut self._graph[nid] {
            Some(node) => {
                node.inputs.append(&mut tail);
            },
            None => {},
        }
        Ok(())
    }

    /// The first empty slot, or the length of the arena when every slot is taken.
    pub fn find_first_empty_cell(&mut self) -> (r: usize)
        ensures
            final(self)@ == old(self)@,
            final(self).next_uid() == old(self).next_uid(),
            r == first_empty(old(self)@),
            r <= old(self)@.len(),
            r < old(self)@.len() ==> old(self)@[r as int] is None,
            forall|j: usize| j < r ==> live(old(self)@, j),
    {
        let mut i: usize = 0;
        while i < self._graph.len()
            invariant
                i <= self._graph.len(),
                self@ == old(self)@,
                self._node_id_counter == old(self)._node_id_counter,
                first_empty(self@) == first_empty_from(self@, i as int),
                forall|j: usize| j < i ==> live(self@, j),
            decreases self._graph.len() - i,
        {
            if self._graph[i].is_none() {
                return i;
            }
            i += 1;
        }
        i
    }

    /// The node in slot `nid`, to be changed in place.
    pub fn get_node_mut(&mut self, nid: usize) -> (r: Result<&mut Node, SoNError>)
        ensures
            final(self).next_uid() == old(self).next_uid(),
            match r {
                Ok(n) => live(old(self)@, nid) && *n == old(self)@[nid as int]->0 && final(self)@
                    == old(self)@.update(nid as int, Some(*final(n))),
                Err(e) => e is NodeIdNotExisting && !live(old(self)@, nid)
                    && final(self)@ == old(self)@,
            },
    {
        if nid < self._graph.len() {
            match &mut self._graph[nid] {
                Some(n) => Ok(n),
                None => Err(SoNError::NodeIdNotExisting),
            }
        } else {
            Err(SoNError::NodeIdNotExisting)
        }
    }

    /// The node in slot `nid`.
    pub fn get_node(&self, nid: usize) -> (r: Result<&Node, SoNError>)
        ensures
            match r {
                Ok(n) => live(self@, nid) && *n == self@[nid as int]->0,
                Err(e) => e is NodeIdNotExisting && !live(self@, nid),
            },
    {
        if nid < self._graph.len() {
            match &self._graph[nid] {
                Some(n) => Ok(n),
                None => Err(SoNError::NodeIdNotExisting),
            }
        } else {
            Err(SoNError::NodeIdNotExisting)
        }
    }

    /// Whether slot `nid` holds a node.
    pub fn node_exists(&self, nid: usize) -> (r: bool)
        ensures
            r == live(self@, nid),
    {
        self.get_node(nid).is_ok()
    }

    /// Whether slot `nid` holds the node with the unique id `uid`: a held slot
    /// id may by now name another node, a unique id never does.
    pub fn node_exists_unique(&self, nid: usize, uid: usize) -> (r: bool)
        ensures
            r == (live(self@, nid) && self@[nid as int]->0.uid == uid),
    {
        match self.get_node(nid) {
            Ok(n) => n.uid == uid,
            Err(_) => false,
        }
    }
}

/// Number of leading inputs whose types the refiner reads for a node of this kind.
fn reads_of(kind: &NodeKind) -> (r: usize)
    ensures
        r == refiner_reads(*kind),
{
    match kind {
        NodeKind::Add | NodeKind::Sub | NodeKind::Mul | NodeKind::Div | NodeKind::Comp { .. } => 2,
        NodeKind::Minus | NodeKind::Not | NodeKind::Proj { .. } => 1,
        _ => 0,
    }
}

/// The refined type of a node depends only on its kind, on its type and on the
/// types of the inputs that the refiner reads.
pub proof fn lemma_refined_typ_reads(
    g1: Seq<Option<Node>>,
    g2: Seq<Option<Node>>,
    inputs: Seq<usize>,
    kind: NodeKind,
    typ: TypV,
)
    requires
        forall|k: int|
            0 <= k < refiner_reads(kind) && k < inputs.len() ==> g1[inputs[k] as int]->0.typ@
                == g2[inputs[k] as int]->0.typ@,
        inputs.len() >= refiner_reads(kind),
    ensures
        refined_from(g1, inputs, kind, typ) == refined_from(g2, inputs, kind, typ),
{
}

/// A node that was placed in an empty slot is listed as an observer by each
/// of its inputs.
pub proof fn lemma_inserted_observes(
    old: Seq<Option<Node>>,
    new: Seq<Option<Node>>,
    index: usize,
    inputs: Seq<usize>,
    kind: NodeKind,
    uid: usize,
    typ: TypV,
)
    requires
        inserted(old, new, index, inputs, kind, uid, typ),
        all_live(old, inputs),
        !live(old, index),
    ensures
        forall|i: int| 0 <= i < inputs.len() ==> out_mult(new, #[trigger] inputs[i], index) > 0,
{
    assert forall|i: int| 0 <= i < inputs.len() implies out_mult(
        new,
        #[trigger] inputs[i],
        index,
    ) > 0 by {
        let d = inputs[i];
        assert(live(old, d));
        lemma_last_index_of(inputs, d);
        lemma_count_append_repeat(old[d as int]->0.outputs@, index, count(inputs, d), index);
    }
}

/// Creating a node keeps the arena well formed.
pub proof fn lemma_inserted_wf(
    old: Seq<Option<Node>>,
    new: Seq<Option<Node>>,
    index: usize,
    inputs: Seq<usize>,
    kind: NodeKind,
    uid: usize,
    typ: TypV,
)
    requires
        edges_match(old),
        inserted(old, new, index, inputs, kind, uid, typ),
        all_live(old, inputs),
        !live(old, index),
    ensures
        edges_match(new),
{
    assert forall|n: usize, d: usize| #[trigger] in_mult(new, n, d) == out_mult(new, d, n) by {
        assert(in_mult(old, n, d) == out_mult(old, d, n));
        assert(in_mult(old, index, d) == out_mult(old, d, index));
        assert(in_mult(old, n, index) == out_mult(old, index, n));
        if d < old.len() && d != index && old[d as int] is Some {
            lemma_count_append_repeat(old[d as int]->0.outputs@, index, count(inputs, d), n);
        }
        if n == index {
            if count(inputs, d) > 0 {
                lemma_last_index_of(inputs, d);
                assert(live(old, inputs[last_index_of(inputs, d)]));
            }
        }
    }
}

/// Creating a node leaves the slot and the unique id of every other node alone.
pub proof fn lemma_inserted_ids(
    old: Seq<Option<Node>>,
    new: Seq<Option<Node>>,
    index: usize,
    inputs: Seq<usize>,
    kind: NodeKind,
    uid: usize,
    typ: TypV,
)
    requires
        inserted(old, new, index, inputs, kind, uid, typ),
        !live(old, index),
    ensures
        forall|n: usize|
            live(new, n) && n != index ==> live(old, n)
                && (#[trigger] new[n as int])->0.nid == old[n as int]->0.nid
                && new[n as int]->0.uid == old[n as int]->0.uid,
{
    assert forall|n: usize| live(new, n) && n != index implies live(old, n)
        && (#[trigger] new[n as int])->0.nid
        == old[n as int]->0.nid && new[n as int]->0.uid == old[n as int]->0.uid by {
        assert(n < old.len());
        let c = old[n as int];
    }
}

/// Adding an edge between two nodes keeps the arena well formed.
pub proof fn lemma_edge_added_wf(
    old: Seq<Option<Node>>,
    new: Seq<Option<Node>>,
    user: usize,
    def: usize,
)
    requires
        edges_match(old),
        live(old, user),
        live(old, def),
        edge_added(old, new, user, def),
    ensures
        edges_match(new),
{
    assert forall|n: usize, d: usize| #[trigger] in_mult(new, n, d) == out_mult(new, d, n) by {
        assert(in_mult(old, n, d) == out_mult(old, d, n));
        lemma_count_push(old[user as int]->0.inputs@, def, d);
        lemma_count_push(old[def as int]->0.outputs@, user, n);
        if n < old.len() && n != user && n != def {
            assert(new[n as int] == old[n as int]);
        }
        if d < old.len() && d != user && d != def {
            assert(new[d as int] == old[d as int]);
        }
    }
}

/// Removing an edge keeps the arena well formed.
pub proof fn lemma_edge_removed_wf(
    old: Seq<Option<Node>>,
    new: Seq<Option<Node>>,
    nid: usize,
    dep_nid: usize,
)
    requires
        edges_match(old),
        live(old, nid),
        live(old, dep_nid),
        edge_removed(old, new, nid, dep_nid),
    ensures
        edges_match(new),
{
    assert forall|n: usize, d: usize| #[trigger] in_mult(new, n, d) == out_mult(new, d, n) by {
        assert(in_mult(old, n, d) == out_mult(old, d, n));
        assert(in_mult(old, nid, dep_nid) == out_mult(old, dep_nid, nid));
        lemma_count_remove_last(old[nid as int]->0.inputs@, dep_nid, d);
        lemma_count_remove_last(old[dep_nid as int]->0.outputs@, nid, n);
        if n < old.len() && n != nid && n != dep_nid {
            assert(new[n as int] == old[n as int]);
        }
        if d < old.len() && d != nid && d != dep_nid {
            assert(new[d as int] == old[d as int]);
        }
    }
}

} // verus!
