use vstd::prelude::*;

verus! {

#[allow(inconsistent_fields)]
/// Mathematical value of a lattice element.
///
/// `Bot` lies below every element and `Top` above every element.  Between them
/// stand four unrelated families: the integers, the booleans and the tuples,
/// each flat between its own top and bottom, and the single element `Ctrl`.
pub enum TypV {
    Bot,
    Top,
    Int { constant: i64 },
    IntTop,
    IntBot,
    Bool { constant: bool },
    BoolTop,
    BoolBot,
    Tuple { typs: Seq<TypV> },
    TupleTop,
    TupleBot,
    Ctrl,
}

impl TypV {
    /// The three elements that belong to no family.
    pub open spec fn is_simple(self) -> bool {
        self is Bot || self is Top || self is Ctrl
    }

    /// A compile-time value: a concrete integer, a concrete boolean, or `Top`.
    pub open spec fn is_constant(self) -> bool {
        self is Top || self is Int || self is Bool
    }

    /// A concrete integer, or the top or the bottom of the integers.
    pub open spec fn is_int_family(self) -> bool {
        self is Int || self is IntTop || self is IntBot
    }

    /// A concrete boolean, or the top or the bottom of the booleans.
    pub open spec fn is_bool_family(self) -> bool {
        self is Bool || self is BoolTop || self is BoolBot
    }

    /// A tuple, or the top or the bottom of the tuples.
    pub open spec fn is_tuple_family(self) -> bool {
        self is Tuple || self is TupleTop || self is TupleBot
    }

    /// Swaps top and bottom, globally and within each family.
    pub open spec fn dual(self) -> TypV {
        match self {
            TypV::Bot => TypV::Top,
            TypV::Top => TypV::Bot,
            TypV::IntTop => TypV::IntBot,
            TypV::IntBot => TypV::IntTop,
            TypV::BoolTop => TypV::BoolBot,
            TypV::BoolBot => TypV::BoolTop,
            TypV::TupleTop => TypV::TupleBot,
            TypV::TupleBot => TypV::TupleTop,
            _ => self,
        }
    }

    /// Meet of two elements.
    ///
    /// `Top` is neutral and `Bot` absorbs.  Within a family the family's top is
    /// neutral, its bottom absorbs, and two concrete members meet in themselves
    /// when equal and in the family's bottom otherwise.  `Ctrl` meets only `Top`
    /// in `Ctrl`; every other pair meets in `Bot`.
    pub open spec fn meet(self, other: TypV) -> TypV {
        if self is Top {
            other
        } else if other is Top {
            self
        } else if self.is_int_family() && other.is_int_family() {
            if self is IntTop {
                other
            } else if other is IntTop {
                self
            } else if self == other {
                self
            } else {
                TypV::IntBot
            }
        } else if self.is_bool_family() && other.is_bool_family() {
            if self is BoolTop {
                other
            } else if other is BoolTop {
                self
            } else if self == other {
                self
            } else {
                TypV::BoolBot
            }
        } else if self.is_tuple_family() && other.is_tuple_family() {
            if self is TupleTop {
                other
            } else if other is TupleTop {
                self
            } else if self == other {
                self
            } else {
                TypV::TupleBot
            }
        } else {
            TypV::Bot
        }
    }

    /// Join, defined from meet by duality.
    pub open spec fn join(self, other: TypV) -> TypV {
        self.dual().meet(other.dual()).dual()
    }

    /// A type may only be replaced by one that its meet with leaves it unchanged.
    pub open spec fn transition_allowed(self, to: TypV) -> bool {
        self.meet(to) == self
    }
}

/// An element of the type lattice.
#[allow(inconsistent_fields)]
#[derive(Debug)]
pub enum Typ {
    /// ALL: the program's value is not known at compile time.
    Bot,
    /// ANY: any value may be chosen, as convenient.
    Top,
    /// A concrete integer.
    Int { constant: i64 },
    IntTop,
    IntBot,
    /// A concrete boolean.
    Bool { constant: bool },
    BoolTop,
    BoolBot,
    /// A finite collection of unrelated types, kept in parallel.
    Tuple { typs: Vec<Typ> },
    TupleTop,
    TupleBot,
    Ctrl,
}

/// Pointwise view of a list of types.
pub open spec fn view_all(typs: Seq<Typ>) -> Seq<TypV>
    decreases typs,
{
    Seq::new(typs.len(), |i: int| if 0 <= i < typs.len() { view_of(typs[i]) } else { TypV::Bot })
}

/// The lattice element that a type stands for.
pub open spec fn view_of(t: Typ) -> TypV
    decreases t,
{
    match t {
        Typ::Bot => TypV::Bot,
        Typ::Top => TypV::Top,
        Typ::Int { constant } => TypV::Int { constant },
        Typ::IntTop => TypV::IntTop,
        Typ::IntBot => TypV::IntBot,
        Typ::Bool { constant } => TypV::Bool { constant },
        Typ::BoolTop => TypV::BoolTop,
        Typ::BoolBot => TypV::BoolBot,
        Typ::Tuple { typs } => TypV::Tuple { typs: view_all(typs@) },
        Typ::TupleTop => TypV::TupleTop,
        Typ::TupleBot => TypV::TupleBot,
        Typ::Ctrl => TypV::Ctrl,
    }
}

impl View for Typ {
    type V = TypV;

    open spec fn view(&self) -> TypV {
        view_of(*self)
    }
}

impl Typ {
    /// Structural equality: the two values denote the same lattice element.
    pub fn same(&self, other: &Typ) -> (r: bool)
        ensures
            r == (self@ == other@),
        decreases self,
    {
        match (self, other) {
            (Typ::Bot, Typ::Bot) => true,
            (Typ::Top, Typ::Top) => true,
            (Typ::Int { constant: a }, Typ::Int { constant: b }) => *a == *b,
            (Typ::IntTop, Typ::IntTop) => true,
            (Typ::IntBot, Typ::IntBot) => true,
            (Typ::Bool { constant: a }, Typ::Bool { constant: b }) => *a == *b,
            (Typ::BoolTop, Typ::BoolTop) => true,
            (Typ::BoolBot, Typ::BoolBot) => true,
            (Typ::Tuple { typs: a }, Typ::Tuple { typs: b }) => {
                if a.len() != b.len() {
                    assert(view_all(a@).len() != view_all(b@).len());
                    return false;
                }
                let mut i: usize = 0;
                while i < a.len()
                    invariant
                        a.len() == b.len(),
                        i <= a.len(),
                        forall|j: int| 0 <= j < i ==> a@[j]@ == b@[j]@,
                        self is Tuple && self->typs == *a,
                        other is Tuple && other->typs == *b,
                    decreases a.len() - i,
                {
                    assert(decreases_to!(a => a[i as int]));
                    if !a[i].same(&b[i]) {
                        assert(view_all(a@)[i as int] != view_all(b@)[i as int]);
                        return false;
                    }
                    i += 1;
                }
                assert(view_all(a@) =~= view_all(b@));
                true
            },
            (Typ::TupleTop, Typ::TupleTop) => true,
            (Typ::TupleBot, Typ::TupleBot) => true,
            (Typ::Ctrl, Typ::Ctrl) => true,
            _ => false,
        }
    }

    /// `Bot`, `Top` and `Ctrl`: the elements outside every family.
    pub fn is_simple(&self) -> (r: bool)
        ensures
            r == self@.is_simple(),
    {
        matches!(self, Typ::Bot | Typ::Top | Typ::Ctrl)
    }

    /// Whether the element is a compile-time value.
    pub fn is_constant(&self) -> (r: bool)
        ensures
            r == self@.is_constant(),
    {
        matches!(self, Typ::Top | Typ::Int { .. } | Typ::Bool { .. })
    }

    /// Whether a node of this type may take the type `other`.
    pub fn transition_allowed(&self, other: &Typ) -> (r: bool)
        ensures
            r == self@.transition_allowed(other@),
    {
        self.meet(other).same(self)
    }

    /// Join of two elements: the dual of the meet of their duals.
    pub fn join(&self, other: &Typ) -> (r: Typ)
        ensures
            r@ == self@.join(other@),
    {
        self.dual().meet(&other.dual()).dual()
    }

    /// The dual: top and bottom change places, globally and within each family.
    pub fn dual(&self) -> (r: Typ)
        ensures
            r@ == self@.dual(),
    {
        match self {
            Typ::Bot => Typ::Top,
            Typ::Top => Typ::Bot,
            Typ::IntTop => Typ::IntBot,
            Typ::IntBot => Typ::IntTop,
            Typ::BoolTop => Typ::BoolBot,
            Typ::BoolBot => Typ::BoolTop,
            Typ::TupleTop => Typ::TupleBot,
            Typ::TupleBot => Typ::TupleTop,
            Typ::Int { .. } | Typ::Bool { .. } | Typ::Tuple { .. } | Typ::Ctrl => self.clone(),
        }
    }

    /// Meet of two elements.
    pub fn meet(&self, other: &Typ) -> (r: Typ)
        ensures
            r@ == self@.meet(other@),
    {
        match self {
            Typ::Bot => Typ::Bot,
            Typ::Top => other.clone(),
            Typ::Int { constant } => match other {
                Typ::Int { constant: o_constant } => if *constant == *o_constant {
                    self.clone()
                } else {
                    Typ::IntBot
                },
                Typ::IntTop | Typ::Top => self.clone(),
                Typ::IntBot => Typ::IntBot,
                _ => Typ::Bot,
            },
            Typ::IntTop => match other {
                Typ::Top => Typ::IntTop,
                Typ::Int { .. } | Typ::IntTop | Typ::IntBot => other.clone(),
                _ => Typ::Bot,
            },
            Typ::IntBot => match other {
                Typ::Top | Typ::Int { .. } | Typ::IntTop | Typ::IntBot => Typ::IntBot,
                _ => Typ::Bot,
            },
            Typ::Bool { constant } => match other {
                Typ::Bool { constant: o_constant } => if *constant == *o_constant {
                    self.clone()
                } else {
                    Typ::BoolBot
                },
                Typ::BoolTop | Typ::Top => self.clone(),
                Typ::BoolBot => Typ::BoolBot,
                _ => Typ::Bot,
            },
            Typ::BoolTop => match other {
                Typ::Top => Typ::BoolTop,
                Typ::Bool { .. } | Typ::BoolTop | Typ::BoolBot => other.clone(),
                _ => Typ::Bot,
            },
            Typ::BoolBot => match other {
                Typ::Top | Typ::Bool { .. } | Typ::BoolTop | Typ::BoolBot => Typ::BoolBot,
                _ => Typ::Bot,
            },
            Typ::Tuple { .. } => match other {
                Typ::Tuple { .. } => if self.same(other) {
                    self.clone()
                } else {
                    Typ::TupleBot
                },
                Typ::TupleTop | Typ::Top => self.clone(),
                Typ::TupleBot => Typ::TupleBot,
                _ => Typ::Bot,
            },
            Typ::TupleTop => match other {
                Typ::Top => Typ::TupleTop,
                Typ::Tuple { .. } | Typ::TupleTop | Typ::TupleBot => other.clone(),
                _ => Typ::Bot,
            },
            Typ::TupleBot => match other {
                Typ::Top | Typ::Tuple { .. } | Typ::TupleTop | Typ::TupleBot => Typ::TupleBot,
                _ => Typ::Bot,
            },
            Typ::Ctrl => match other {
                Typ::Top => Typ::Ctrl,
                _ => Typ::Bot,
            },
        }
    }
}

impl Clone for Typ {
    fn clone(&self) -> (r: Typ)
        ensures
            r@ == self@,
        decreases self,
    {
        match self {
            Typ::Bot => Typ::Bot,
            Typ::Top => Typ::Top,
            Typ::Int { constant } => Typ::Int { constant: *constant },
            Typ::IntTop => Typ::IntTop,
            Typ::IntBot => Typ::IntBot,
            Typ::Bool { constant } => Typ::Bool { constant: *constant },
            Typ::BoolTop => Typ::BoolTop,
            Typ::BoolBot => Typ::BoolBot,
            Typ::Tuple { typs } => {
                let mut out: Vec<Typ> = Vec::new();
                let mut i: usize = 0;
                while i < typs.len()
                    invariant
                        i <= typs.len(),
                        out.len() == i,
                        forall|j: int| 0 <= j < i ==> out@[j]@ == typs@[j]@,
                        self is Tuple && self->typs == *typs,
                    decreases typs.len() - i,
                {
                    assert(decreases_to!(typs => typs[i as int]));
                    out.push(typs[i].clone());
                    i += 1;
                }
                assert(view_all(out@) =~= view_all(typs@));
                Typ::Tuple { typs: out }
            },
            Typ::TupleTop => Typ::TupleTop,
            Typ::TupleBot => Typ::TupleBot,
            Typ::Ctrl => Typ::Ctrl,
        }
    }
}

impl PartialEq for Typ {
    fn eq(&self, other: &Typ) -> (r: bool) {
        self.same(other)
    }
}

impl vstd::std_specs::cmp::PartialEqSpecImpl for Typ {
    open spec fn obeys_eq_spec() -> bool {
        true
    }

    open spec fn eq_spec(&self, other: &Typ) -> bool {
        self@ == other@
    }
}

/// Taking the dual twice gives the element back.
pub proof fn lemma_dual_involutive(x: TypV)
    ensures
        x.dual().dual() == x,
{
}

/// Join is the dual of the meet of the duals.
pub proof fn lemma_join_by_duality(a: TypV, b: TypV)
    ensures
        a.join(b) == a.dual().meet(b.dual()).dual(),
{
}

/// Meet does not depend on the order of its arguments.
pub proof fn lemma_meet_commutative(a: TypV, b: TypV)
    ensures
        a.meet(b) == b.meet(a),
{
}

/// Meet does not depend on how its arguments are grouped.
pub proof fn lemma_meet_associative(a: TypV, b: TypV, c: TypV)
    ensures
        a.meet(b).meet(c) == a.meet(b.meet(c)),
{
}

/// Join does not depend on the order of its arguments.
pub proof fn lemma_join_commutative(a: TypV, b: TypV)
    ensures
        a.join(b) == b.join(a),
{
}

/// Join does not depend on how its arguments are grouped.
pub proof fn lemma_join_associative(a: TypV, b: TypV, c: TypV)
    ensures
        a.join(b).join(c) == a.join(b.join(c)),
{
    lemma_dual_involutive(a.dual().meet(b.dual()));
    lemma_dual_involutive(b.dual().meet(c.dual()));
    lemma_meet_associative(a.dual(), b.dual(), c.dual());
}

/// Every element but `Ctrl` may keep its own type: `Ctrl` meets itself in `Bot`.
pub proof fn lemma_transition_reflexive(x: TypV)
    requires
        !(x is Ctrl),
    ensures
        x.transition_allowed(x),
{
}

/// Types move up only: an allowed transition followed by another is allowed as a whole.
pub proof fn lemma_transition_transitive(a: TypV, b: TypV, c: TypV)
    requires
        a.transition_allowed(b),
        b.transition_allowed(c),
    ensures
        a.transition_allowed(c),
{
}

} // verus!
