use crate::errors::son_error::SoNError;
use crate::nodes::graph::{
    Graph, all_live, count, first_empty_from, lemma_count_push, live, live_count, out_mult,
};
use crate::nodes::node::{Node, NodeKind};
use crate::services::collector::droppable;
use crate::services::dotvis::{as_dotfile, dot_text};
use crate::services::grammar::{
    Failure, Outcome, addition, assignment, binding, block, declaration, declared, expression,
    identifier, is_keyword, lemma_space_end, multiplication, number, primary, program,
    return_statement, space_end, statement, statements, unary,
};
use crate::services::lexer::{
    CharClass, Lexer, is_id_start_char, line_col, run_end, starts_at, token_end, token_text,
};
use crate::services::links::{leads, lemma_all_lead, lemma_all_reach, reaches};
use crate::services::scope::{held_kept, lemma_held_scope_kept, lemma_held_twice};
use crate::services::scope::{
    anchored, lemma_found_live, lemma_lookup_declared, lemma_pop_keeps_live, lemma_top_live,
    level_names, names, pins_held, scope_kept, scope_moved, scope_stack, tidy,
};
use crate::services::builder::{
    lemma_added_cost, lemma_added_folded, lemma_added_typ, lemma_constant_stays,
};
use crate::services::text::decimal;
use crate::services::typ_refiner::refined_from;
use crate::services::typing::{
    Last, addition_typ, binding_typ, block_last, bound_env, expression_typ, folded, known,
    lemma_assigned_known, lemma_declared_known, lemma_outer_fewer, lemma_outer_rebound,
    lemma_outer_same, lemma_outer_scope_kept, lemma_outer_twice, lemma_outer_types,
    lemma_pushed_types, lemma_scope_kept_types, lemma_shown_less, lemma_shown_rebound,
    lemma_statement_folds_grow,
    lemma_statement_grows, multiplication_typ, outer_kept, primary_typ, return_typ, shown,
    statement_effect, statements_last, types_in_scope, unary_typ, within, yields,
};
use crate::services::typing::{
    addition_folds, binding_folds, block_folds, expression_folds, multiplication_folds,
    primary_folds, program_folds, right_folds, statement_folds, statements_fold, unary_folds,
};
use crate::services::typing::{
    folded_node, lemma_folded_defined, lemma_folded_scope_kept, lemma_folded_unbound,
    scope_folded, value_folded,
};
use crate::services::typing::{
    component, lemma_defined_types, lemma_return_pinned, lemma_return_swept, lemma_shown_kept,
    program_last, return_kept, start_env,
};
use crate::typ::typ::{Typ, TypV};
use vstd::prelude::*;
use vstd::string::*;

verus! {

/// The slot of the node that holds temporaries.
pub const KEEP_ALIVE_NID: usize = 0;

/// The slot of the node that carries the scope stack.
pub const SCOPE_NID: usize = 1;

/// The slot of the node that the program starts from.
pub const START_NID: usize = 2;

/// The parser: the lexer over the program, the graph that it builds from the
/// program, and the switch of the optimizer.
pub struct Parser {
    pub lexer: Lexer,
    pub graph: Graph,
    /// Whether new nodes are peephole-optimized.
    pub do_optimize: bool,
    /// What the debug directives of the program have written.
    pub _dbg_output: String,
}

/// The error is none of the program: a node or a type that had to be there is not.
pub open spec fn internal(e: SoNError) -> bool {
    e is NodeIdNotExisting || e is TypTransitionNotAllowed
}

/// What an error says is wrong with the program; nothing for an error
/// that is none of the program.
pub open spec fn failure_of(e: SoNError) -> Option<Failure> {
    match e {
        SoNError::SyntaxExpected { expected, but_got } => Some(
            Failure::Syntax { expected: expected@, but_got: but_got@ },
        ),
        SoNError::NumberCannotStartWith0 => Some(Failure::LeadingZero),
        SoNError::VariableRedefinition { variable } => Some(
            Failure::Redefinition { variable: variable@ },
        ),
        SoNError::VariableUndefined { variable } => Some(Failure::Undefined { variable: variable@ }),
        _ => None,
    }
}

/// A name is found in the scope stack of the arena if and only if one of its
/// levels declares it.
pub proof fn lemma_found_declared(g: Seq<Option<Node>>, name: Seq<char>)
    requires
        scope_stack(g) is Some,
    ensures
        crate::services::scope::lookup(scope_stack(g)->0, name, scope_stack(g)->0.len()) is Some
            <==> declared(names(g), name),
{
    let stack = scope_stack(g)->0;
    let declared_names = names(g);
    lemma_lookup_declared(stack, name, stack.len());
    if declared(declared_names, name) {
        let l = choose|l: int|
            0 <= l < declared_names.len() && #[trigger] declared_names[l].contains(name);
        assert(level_names(stack[l]).contains(name));
    } else {
        assert forall|l: int| 0 <= l < stack.len() implies !#[trigger] level_names(
            stack[l],
        ).contains(name) by {
            assert(declared_names[l] == level_names(stack[l]));
        }
    }
}

/// Whether `name` is one of the keywords `int` and `return`.
pub fn keyword(name: &String) -> (r: bool)
    ensures
        r == is_keyword(name@),
{
    let int_word = String::from_str("int");
    let return_word = String::from_str("return");
    *name == int_word || *name == return_word
}

/// The parser as it stands before the program is parsed: the text in braces,
/// the optimizer on, and the keep-alive node, the scope node and the start
/// node in the first three slots, the latter two pinned.
pub open spec fn initial(p: Parser, program: Seq<char>, arg: TypV) -> bool {
    let g = p.graph@;
    &&& p.lexer.text() == "{"@ + program + "}"@
    &&& p.lexer.pos() == 0
    &&& p.do_optimize
    &&& p._dbg_output@ == Seq::<char>::empty()
    &&& p.graph.wf()
    &&& p.graph.next_uid() == 3
    &&& g.len() == 3
    &&& live(g, KEEP_ALIVE_NID) && live(g, SCOPE_NID) && live(g, START_NID)
    &&& g[0]->0.node_kind is KeepAlive
    &&& g[0]->0.inputs@ == seq![SCOPE_NID, START_NID]
    &&& g[0]->0.outputs@ == Seq::<usize>::empty()
    &&& scope_stack(g) == Some(Seq::<Seq<(Seq<char>, usize)>>::empty())
    &&& g[1]->0.inputs@ == Seq::<usize>::empty()
    &&& g[1]->0.outputs@ == seq![KEEP_ALIVE_NID]
    &&& g[2]->0.node_kind is Start
    &&& g[2]->0.inputs@ == Seq::<usize>::empty()
    &&& g[2]->0.outputs@ == seq![KEEP_ALIVE_NID]
    &&& g[2]->0.typ@ == (TypV::Tuple { typs: seq![TypV::Ctrl, arg] })
    &&& forall|j: usize| j < 3 ==> (#[trigger] g[j as int])->0.uid == j && g[j as int]->0.nid == j
    &&& tidy(g)
    &&& p.graph.linked()
}

/// The cursor of `lexer` as `line:column`.
pub open spec fn position_text(lexer: Lexer) -> Seq<char> {
    match line_col(lexer.text(), lexer.pos() as int) {
        Some((l, c)) => decimal(l as nat) + seq![':'] + decimal(c as nat),
        None => "out of bounds"@,
    }
}

impl Parser {
    /// The lexer, the switch of the optimizer and the debug output are the
    /// same in both parsers.
    pub open spec fn same_but_arena(&self, other: &Parser) -> bool {
        &&& self.lexer == other.lexer
        &&& self.do_optimize == other.do_optimize
        &&& self._dbg_output == other._dbg_output
    }

    /// Everything but the arena is the same in both parsers.
    pub open spec fn same_but_graph(&self, other: &Parser) -> bool {
        &&& self.lexer == other.lexer
        &&& self.do_optimize == other.do_optimize
        &&& self._dbg_output == other._dbg_output
        &&& self.graph.next_uid() == other.graph.next_uid()
    }

    /// The source text, as the parser reads it.
    pub fn src(&self) -> (r: String)
        ensures
            r@ == self.lexer.text(),
    {
        self.lexer.input()
    }

    /// What every step of parsing keeps: the text and the switch of the
    /// optimizer; the cursor only moves forward.
    pub open spec fn proceeds_from(&self, before: &Parser) -> bool {
        &&& self.lexer.text() == before.lexer.text()
        &&& self.do_optimize == before.do_optimize
        &&& self.lexer.pos() >= before.lexer.pos()
    }

    /// What the step from `before` to this parser owes of the unique ids, from
    /// a tidy arena and where `folds` holds if the optimizer is on: the step
    /// uses two unique ids at most for each character that it reads, and
    /// `extra` more; and it fails for want of a node or of a type only where
    /// the unique ids that were left before it do not last for the rest of the
    /// text.
    pub open spec fn owed(
        &self,
        before: &Parser,
        r: Result<usize, SoNError>,
        folds: bool,
        extra: int,
    ) -> bool {
        tidy(before.graph@) && (before.do_optimize ==> folds) ==> {
            &&& r is Ok ==> self.graph.next_uid() <= before.graph.next_uid() + 2 * (
            self.lexer.pos() - before.lexer.pos()) + extra
            &&& r is Err && internal(r->Err_0) ==> before.graph.next_uid() + 2
                * before.lexer.remaining() + extra > usize::MAX
        }
    }

    /// The step from `before` to this parser, with the result `r`, follows the
    /// grammar, by which the part of the program at the cursor comes to `o`,
    /// provided that the arena of `before` is tidy.
    ///
    /// A part that is returned was accepted, the cursor stands at its end,
    /// and the scope levels declare what the grammar says.  A failure is the
    /// failure that the grammar finds, with the cursor where it gave up, unless
    /// a node or a type is missing in the arena.
    pub open spec fn follows(
        &self,
        before: &Parser,
        r: Result<usize, SoNError>,
        o: Outcome,
    ) -> bool {
        tidy(before.graph@) ==> match r {
            Ok(_) => match o {
                Outcome::Accept { end, names: declared } => {
                    &&& self.lexer.pos() == end
                    &&& names(self.graph@) == declared
                    &&& names(self.graph@).len() == names(before.graph@).len()
                    &&& tidy(self.graph@)
                    &&& out_mult(self.graph@, SCOPE_NID, KEEP_ALIVE_NID) == out_mult(
                        before.graph@,
                        SCOPE_NID,
                        KEEP_ALIVE_NID,
                    )
                },
                _ => false,
            },
            Err(SoNError::DebugPropagateControlFlowUpward) => match o {
                Outcome::Directive { end } => self.lexer.pos() == end && self.graph == before.graph,
                _ => false,
            },
            Err(e) => internal(e) || match o {
                Outcome::Reject { failure, end } => failure_of(e) == Some(failure)
                    && self.lexer.pos() == end,
                _ => false,
            },
        }
    }

    /// With the optimizer off, the node in slot `nid` is a node of kind `kind`
    /// with `arity` inputs, which are all there.
    pub open spec fn built(&self, before: &Parser, nid: usize, kind: NodeKind, arity: nat) -> bool {
        !before.do_optimize ==> {
            &&& live(self.graph@, nid)
            &&& self.graph@[nid as int]->0.node_kind == kind
            &&& self.graph@[nid as int]->0.inputs@.len() == arity
            &&& all_live(self.graph@, self.graph@[nid as int]->0.inputs@)
        }
    }

    /// The step has read at least one character of the text.
    pub open spec fn consumed_since(&self, before: &Parser) -> bool {
        before.lexer.pos() < self.lexer.pos() <= self.lexer.text().len()
    }

    fn new_internal(program: &str, arg: Typ) -> (r: Result<Parser, SoNError>)
        ensures
            r is Ok,
            initial(r->Ok_0, program@, arg@),
    {
        let mut text = String::from_str("{");
        text.append(program);
        text.append("}");
        let mut ctx = Parser {
            lexer: Lexer::from_string(text),
            graph: Graph::new(),
            do_optimize: true,
            _dbg_output: String::new(),
        };
        match ctx.graph.new_node(Vec::new(), NodeKind::KeepAlive, Typ::Bot) {
            Ok(_) => {},
            Err(e) => {
                return Err(e);
            },
        }
        let ghost g0 = ctx.graph@;
        proof {
            assert(first_empty_from(g0, 1) == 1);
            assert(first_empty_from(g0, 0) == 1);
        }
        match ctx.graph.new_node(Vec::new(), NodeKind::Scope { scopes: Vec::new() }, Typ::Bot) {
            Ok(_) => {},
            Err(e) => {
                return Err(e);
            },
        }
        let ghost g1 = ctx.graph@;
        match ctx.keep_node(SCOPE_NID) {
            Ok(_) => {},
            Err(e) => {
                return Err(e);
            },
        }
        let ghost g2 = ctx.graph@;
        let mut typs: Vec<Typ> = Vec::new();
        typs.push(Typ::Ctrl);
        typs.push(arg);
        let start_typ = Typ::Tuple { typs };
        assert(start_typ@ == (TypV::Tuple { typs: seq![TypV::Ctrl, arg@] })) by {
            assert(crate::typ::typ::view_all(typs@) =~= seq![TypV::Ctrl, arg@]);
        }
        proof {
            assert(first_empty_from(g2, 2) == 2);
            assert(first_empty_from(g2, 1) == 2);
            assert(first_empty_from(g2, 0) == 2);
        }
        match ctx.graph.new_node(Vec::new(), NodeKind::Start, start_typ) {
            Ok(_) => {},
            Err(e) => {
                return Err(e);
            },
        }
        let ghost g3 = ctx.graph@;
        match ctx.keep_node(START_NID) {
            Ok(_) => {},
            Err(e) => {
                return Err(e);
            },
        }
        proof {
            let g = ctx.graph@;
            assert(g[0]->0.inputs@ =~= seq![SCOPE_NID, START_NID]);
            assert(g[0]->0.outputs@ =~= Seq::<usize>::empty());
            assert(g[1]->0.outputs@ =~= seq![KEEP_ALIVE_NID]);
            assert(g[2]->0.outputs@ =~= seq![KEEP_ALIVE_NID]);
            assert(scope_stack(g)->0 =~~= Seq::<Seq<(Seq<char>, usize)>>::empty());
            assert(seq![KEEP_ALIVE_NID].drop_last() =~= Seq::<usize>::empty());
            assert(count(seq![KEEP_ALIVE_NID], KEEP_ALIVE_NID) == 1);
            assert forall|x: usize| #[trigger]
                crate::services::scope::bound_count(scope_stack(g)->0, x) == 0 by {}
            assert(crate::services::links::well_linked(g, 3)) by {
                assert forall|d: usize, o: usize| #[trigger] out_mult(g, d, o)
                    <= crate::nodes::graph::in_mult(g, o, d) && (out_mult(g, d, o) > 0 && o
                    != KEEP_ALIVE_NID && o != SCOPE_NID ==> g[o as int]->0.uid
                    > g[d as int]->0.uid) by {
                    assert(crate::nodes::graph::in_mult(g, o, d) == out_mult(g, d, o));
                    if d < 3 && o != KEEP_ALIVE_NID {
                        let outputs = g[d as int]->0.outputs@;
                        if outputs.len() > 0 {
                            assert(outputs.drop_last() =~= Seq::<usize>::empty());
                        }
                    }
                }
            }
        }
        Ok(ctx)
    }

    /// A parser for `program`, whose argument is known to be `arg`.
    pub fn new(program: &str, arg: i64) -> (r: Result<Parser, SoNError>)
        ensures
            r is Ok,
            initial(r->Ok_0, program@, TypV::Int { constant: arg }),
    {
        Parser::new_internal(program, Typ::Int { constant: arg })
    }

    /// A parser for `program`, whose argument is not known.
    pub fn new_noarg(program: &str) -> (r: Result<Parser, SoNError>)
        ensures
            r is Ok,
            initial(r->Ok_0, program@, TypV::IntBot),
    {
        Parser::new_internal(program, Typ::IntBot)
    }

    /// The drawing of the graph as it stands.
    pub fn as_dotfile(&self) -> (r: String)
        ensures
            r@ == dot_text(self.lexer.text(), self.graph@),
    {
        as_dotfile(self)
    }

    /// Reads `syntax`, after white space, or fails with the token found in its place.
    pub fn require(&mut self, syntax: &str) -> (r: Result<(), SoNError>)
        ensures
            final(self).graph == old(self).graph,
            final(self).do_optimize == old(self).do_optimize,
            final(self)._dbg_output == old(self)._dbg_output,
            final(self).lexer.text() == old(self).lexer.text(),
            final(self).lexer.pos() >= old(self).lexer.pos(),
            match r {
                Ok(_) => starts_at(old(self).lexer.text(), old(self).lexer.after_space(), syntax@)
                    && final(self).lexer.pos() == old(self).lexer.after_space() + syntax@.len(),
                Err(SoNError::SyntaxExpected { expected, but_got }) => {
                    &&& !starts_at(old(self).lexer.text(), old(self).lexer.after_space(), syntax@)
                    &&& expected@ == syntax@
                    &&& but_got@ == token_text(
                        old(self).lexer.text(),
                        old(self).lexer.after_space(),
                    )
                    &&& final(self).lexer.pos() == token_end(
                        old(self).lexer.text(),
                        old(self).lexer.after_space(),
                    )
                },
                Err(_) => false,
            },
    {
        if self.lexer.matsch(syntax) {
            Ok(())
        } else {
            Err(
                SoNError::SyntaxExpected {
                    expected: String::from_str(syntax),
                    but_got: self.lexer.dbg_get_any_next_token(),
                },
            )
        }
    }

    /// Reads an identifier, after white space: a run of identifier characters
    /// that starts with a letter or `_` and is no keyword.
    pub fn require_and_get_identifier(&mut self) -> (r: Result<String, SoNError>)
        ensures
            final(self).graph == old(self).graph,
            final(self).do_optimize == old(self).do_optimize,
            final(self)._dbg_output == old(self)._dbg_output,
            final(self).lexer.text() == old(self).lexer.text(),
            final(self).lexer.pos() >= old(self).lexer.pos(),
            ({
                let s = old(self).lexer.text();
                let p = old(self).lexer.after_space();
                let end = run_end(s, p, CharClass::IdLetter);
                let starts = 0 <= p < s.len() && is_id_start_char(s[p]);
                match r {
                    Ok(name) => starts && name@ == s.subrange(p, end) && !is_keyword(name@)
                        && final(self).lexer.pos() == end && p < end <= s.len(),
                    Err(SoNError::SyntaxExpected { expected, but_got }) => {
                        let q = if starts {
                            end
                        } else {
                            p
                        };
                        &&& !(starts && !is_keyword(s.subrange(p, end)))
                        &&& expected@ == "Identifier"@
                        &&& but_got@ == token_text(s, q)
                        &&& final(self).lexer.pos() == token_end(s, q)
                    },
                    Err(_) => false,
                }
            }),
    {
        self.lexer.skip_whitespace();
        proof {
            crate::services::lexer::lemma_run_end_bounds(
                self.lexer.text(),
                self.lexer.pos() as int,
                CharClass::IdLetter,
            );
        }
        let starts = match self.lexer.peek() {
            Some(c) => Lexer::is_id_start(&c),
            None => false,
        };
        if starts {
            let name = self.lexer.parse_id();
            if !keyword(&name) {
                return Ok(name);
            }
        }
        Err(
            SoNError::SyntaxExpected {
                expected: String::from_str("Identifier"),
                but_got: self.lexer.dbg_get_any_next_token(),
            },
        )
    }

    /// Parses the whole program and returns the slot of the node of its last
    /// statement.
    ///
    /// From a tidy arena, as `Parser::new` makes it, and with two unique ids
    /// left for each character of the text and four more, the program is
    /// parsed with success if the grammar accepts it, and fails with the
    /// failure that the grammar finds if not; with the optimizer on this is
    /// owed for the programs whose sums, products and quotients all fold.
    ///
    /// On success the whole text was read, and the collector has run until
    /// nothing was left to drop: every node but the keep-alive node and the
    /// node returned has an observer, and every node leads to the node
    /// returned, or to an input of the keep-alive node or of the scope node,
    /// along observers other than these two.  Where the last statement is a return
    /// statement, the node returned is a return node, and its value carries
    /// the type of the returned expression wherever the literals and the
    /// names in scope fold to a compile-time value, with the optimizer on
    /// or off.
    #[verifier::rlimit(80)]
    pub fn parse(&mut self) -> (r: Result<usize, SoNError>)
        ensures
            final(self).proceeds_from(old(self)),
            final(self).grows_from(old(self)),
            pins_held(old(self).graph@, final(self).graph@),
            final(self).linked_from(old(self)),
            final(self).owed(
                old(self),
                r,
                program_folds(
                    old(self).lexer.text(),
                    old(self).lexer.pos() as int,
                    names(old(self).graph@),
                    types_in_scope(old(self).graph@),
                    old(self).graph@[START_NID as int]->0.typ@,
                ),
                4,
            ),
            final(self).follows(
                old(self),
                r,
                program(
                    old(self).lexer.text(),
                    old(self).lexer.pos() as int,
                    names(old(self).graph@),
                ),
            ),
            r is Ok && tidy(old(self).graph@) ==> shown(
                final(self).graph@,
                r->Ok_0,
                program_last(
                    old(self).lexer.text(),
                    old(self).lexer.pos() as int,
                    names(old(self).graph@),
                    types_in_scope(old(self).graph@),
                    old(self).graph@[START_NID as int]->0.typ@,
                ),
            ),
            tidy(old(self).graph@) && (old(self).do_optimize ==> program_folds(
                old(self).lexer.text(),
                old(self).lexer.pos() as int,
                names(old(self).graph@),
                types_in_scope(old(self).graph@),
                old(self).graph@[START_NID as int]->0.typ@,
            )) && old(self).graph.next_uid() + 2 * old(self).lexer.remaining() + 4 <= usize::MAX
                ==> match program(
                old(self).lexer.text(),
                old(self).lexer.pos() as int,
                names(old(self).graph@),
            ) {
                Outcome::Accept { .. } => r is Ok,
                Outcome::Reject { failure, .. } => r is Err && failure_of(r->Err_0) == Some(
                    failure,
                ),
                Outcome::Directive { .. } => r is Err,
            },
            final(self).settles_on(
                old(self),
                r,
                program_folds(
                    old(self).lexer.text(),
                    old(self).lexer.pos() as int,
                    names(old(self).graph@),
                    types_in_scope(old(self).graph@),
                    old(self).graph@[START_NID as int]->0.typ@,
                ),
                program_last(
                    old(self).lexer.text(),
                    old(self).lexer.pos() as int,
                    names(old(self).graph@),
                    types_in_scope(old(self).graph@),
                    old(self).graph@[START_NID as int]->0.typ@,
                ),
            ),
            r is Ok && tidy(old(self).graph@) && old(self).graph.linked() ==> held_kept(
                old(self).graph@,
                final(self).graph@,
            ),
            match r {
                Ok(nid) => {
                    &&& live(final(self).graph@, nid)
                    &&& final(self).lexer.at_end()
                    &&& forall|n: usize|
                        live(final(self).graph@, n) && n != KEEP_ALIVE_NID && n != nid ==> (
                        #[trigger] final(self).graph@[n as int])->0.outputs@.len() > 0
                    &&& tidy(old(self).graph@) && old(self).graph.linked() ==> forall|n: usize|
                        live(final(self).graph@, n) ==> #[trigger] leads(
                            final(self).graph@,
                            n,
                            nid,
                            (final(self).graph.next_uid() - final(self).graph@[n as int]->0.uid
                                + 1) as nat,
                        )
                    &&& tidy(old(self).graph@) && old(self).graph.linked() ==> forall|n: usize|
                        live(final(self).graph@, n) ==> #[trigger] reaches(
                            final(self).graph@,
                            n,
                            nid,
                            (final(self).graph.next_uid() - final(self).graph@[n as int]->0.uid
                                + 1) as nat,
                        )
                },
                Err(e) => !(e is DebugPropagateControlFlowUpward),
            },
    {
        match self.declare_start() {
            Ok(_) => {},
            Err(e) => {
                return Err(e);
            },
        }
        let ghost started = self.graph@;
        let nid = match self.parse_block() {
            Ok(n) => n,
            Err(e) => {
                return Err(e);
            },
        };
        let ghost before = self.graph@;
        let ghost last = program_last(
            old(self).lexer.text(),
            old(self).lexer.pos() as int,
            names(old(self).graph@),
            types_in_scope(old(self).graph@),
            old(self).graph@[START_NID as int]->0.typ@,
        );
        proof {
            if tidy(before) && names(before).len() > 0 {
                lemma_top_live(before);
            }
        }
        match self.pop_scope() {
            Ok(_) => {},
            Err(e) => {
                return Err(e);
            },
        }
        let ghost closed = self.graph@;
        proof {
            lemma_pop_keeps_live(before, self.graph@, nid);
            if tidy(old(self).graph@) && old(self).graph.linked() {
                lemma_held_twice(old(self).graph@, started, before);
                lemma_held_twice(old(self).graph@, before, closed);
            }
            if tidy(old(self).graph@) {
                lemma_shown_rebound(before, closed, nid, last);
                if scope_folded(before) {
                    lemma_folded_unbound(before, closed, 0);
                    if last is Return {
                        assert(closed[nid as int]->0.inputs@ == before[nid as int]->0.inputs@);
                    }
                }
            }
        }
        if !self.lexer.is_eof() {
            return Err(
                SoNError::SyntaxExpected {
                    expected: String::from_str("End of file"),
                    but_got: self.lexer.dbg_get_any_next_token(),
                },
            );
        }
        match self.collect_around(nid) {
            Ok(_) => {
                proof {
                    if tidy(old(self).graph@) && old(self).graph.linked() && tidy(closed) {
                        lemma_held_scope_kept(closed, self.graph@);
                        lemma_held_twice(old(self).graph@, closed, self.graph@);
                    }
                    if tidy(old(self).graph@) {
                        lemma_shown_kept(closed, self.graph@, nid, last);
                        if self.do_optimize && scope_folded(closed) && tidy(closed) {
                            lemma_folded_scope_kept(closed, self.graph@);
                            if last is Return {
                                assert(yields(closed, nid, None));
                            }
                        }
                    }
                    if tidy(old(self).graph@) && old(self).graph.linked() {
                        assert forall|n: usize| live(self.graph@, n) implies #[trigger] leads(
                            self.graph@,
                            n,
                            nid,
                            (self.graph.next_uid() - self.graph@[n as int]->0.uid + 1) as nat,
                        ) by {
                            lemma_all_lead(self.graph@, self.graph.next_uid(), nid, n);
                        }
                        assert forall|n: usize| live(self.graph@, n) implies #[trigger] reaches(
                            self.graph@,
                            n,
                            nid,
                            (self.graph.next_uid() - self.graph@[n as int]->0.uid + 1) as nat,
                        ) by {
                            lemma_all_reach(self.graph@, self.graph.next_uid(), nid, n);
                        }
                    }
                }
                Ok(nid)
            },
            Err(e) => Err(e),
        }
    }

    /// Opens the scope level of the program and declares in it the control
    /// node and the argument, as projections of the start node.
    fn declare_start(&mut self) -> (r: Result<(), SoNError>)
        ensures
            final(self).same_but_arena(old(self)),
            final(self).grows_from(old(self)),
            pins_held(old(self).graph@, final(self).graph@),
            final(self).linked_from(old(self)),
            r is Ok && tidy(old(self).graph@) ==> tidy(final(self).graph@),
            tidy(old(self).graph@) ==> (r is Ok ==> final(self).graph.next_uid()
                <= old(self).graph.next_uid() + 4) && (r is Err ==> old(self).graph.next_uid() + 4
                > usize::MAX),
            r is Ok ==> scope_moved(
                old(self).graph@,
                final(self).graph@,
                names(old(self).graph@).push(set!["$ctrl"@, "arg"@]),
            ),
            r is Ok && tidy(old(self).graph@) ==> types_in_scope(final(self).graph@) == start_env(
                types_in_scope(old(self).graph@),
                old(self).graph@[START_NID as int]->0.typ@,
            ),
            r is Ok && tidy(old(self).graph@) && old(self).do_optimize && scope_folded(
                old(self).graph@,
            ) ==> scope_folded(final(self).graph@),
            r is Ok && tidy(old(self).graph@) && old(self).graph.linked() ==> held_kept(
                old(self).graph@,
                final(self).graph@,
            ),
            r is Err ==> internal(r->Err_0),
    {
        let ghost outer = names(self.graph@);
        match self.push_scope() {
            Ok(_) => {},
            Err(e) => {
                return Err(e);
            },
        }
        let ghost opened = self.graph@;
        proof {
            if tidy(old(self).graph@) {
                crate::services::typing::lemma_pushed_types(old(self).graph@, opened);
                let cell = opened[START_NID as int];
                if scope_folded(old(self).graph@) {
                    lemma_folded_unbound(old(self).graph@, opened, 0);
                }
            }
        }
                let (ctrl_nid, arg_nid) = match self.add_projections() {
            Ok(pair) => pair,
            Err(e) => {
                return Err(e);
            },
        };
        let ghost projected = self.graph@;
        proof {
            if tidy(old(self).graph@) && old(self).graph.linked() {
                lemma_held_scope_kept(opened, projected);
                lemma_held_twice(old(self).graph@, opened, projected);
            }
            if tidy(old(self).graph@) {
                lemma_scope_kept_types(opened, projected);
                if scope_folded(opened) {
                    lemma_folded_scope_kept(opened, projected);
                }
            }
        }
        proof {
            reveal_strlit("$ctrl");
            reveal_strlit("arg");
            assert("$ctrl"@.len() != "arg"@.len());
        }
        match self.define_var("$ctrl", ctrl_nid) {
            Ok(_) => {},
            Err(SoNError::VariableRedefinition { variable }) => {
                return Err(SoNError::NodeIdNotExisting);
            },
            Err(e) => {
                return Err(e);
            },
        }
        let ghost first = self.graph@;
        proof {
            if tidy(old(self).graph@) && old(self).graph.linked() {
                lemma_held_twice(old(self).graph@, projected, first);
            }
            if tidy(old(self).graph@) {
                lemma_defined_types(
                    projected,
                    first,
                    "$ctrl"@,
                    ctrl_nid,
                    crate::services::scope::insert_pos(
                        scope_stack(projected)->0.last(),
                        "$ctrl"@,
                        0,
                    ),
                );
                let cell = first[arg_nid as int];
                if self.do_optimize && scope_folded(projected) {
                    lemma_folded_defined(
                        projected,
                        first,
                        "$ctrl"@,
                        ctrl_nid,
                        crate::services::scope::insert_pos(
                            scope_stack(projected)->0.last(),
                            "$ctrl"@,
                            0,
                        ),
                    );
                }
            }
        }
        match self.define_var("arg", arg_nid) {
            Ok(_) => {},
            Err(SoNError::VariableRedefinition { variable }) => {
                return Err(SoNError::NodeIdNotExisting);
            },
            Err(e) => {
                return Err(e);
            },
        }
        proof {
            if tidy(old(self).graph@) && old(self).graph.linked() {
                lemma_held_twice(old(self).graph@, first, self.graph@);
            }
            if tidy(old(self).graph@) {
                lemma_defined_types(
                    first,
                    self.graph@,
                    "arg"@,
                    arg_nid,
                    crate::services::scope::insert_pos(scope_stack(first)->0.last(), "arg"@, 0),
                );
                if self.do_optimize && scope_folded(first) {
                    lemma_folded_defined(
                        first,
                        self.graph@,
                        "arg"@,
                        arg_nid,
                        crate::services::scope::insert_pos(scope_stack(first)->0.last(), "arg"@, 0),
                    );
                }
            }
        }
        proof {
            if anchored(old(self).graph@) {
                assert(Set::<Seq<char>>::empty().insert("$ctrl"@).insert("arg"@) =~= set![
                    "$ctrl"@,
                    "arg"@,
                ]);
                assert(names(self.graph@) =~~= outer.push(set!["$ctrl"@, "arg"@]));
            }
        }
        Ok(())
    }

    /// Creates the projections of the components 0 and 1 of the start node,
    /// the control node and the argument; the first is pinned while the
    /// second is made.
    fn add_projections(&mut self) -> (r: Result<(usize, usize), SoNError>)
        ensures
            final(self).same_but_arena(old(self)),
            final(self).grows_from(old(self)),
            pins_held(old(self).graph@, final(self).graph@),
            final(self).linked_from(old(self)),
            tidy(old(self).graph@) ==> (r is Ok ==> final(self).graph.next_uid()
                <= old(self).graph.next_uid() + 4) && (r is Err ==> old(self).graph.next_uid() + 4
                > usize::MAX),
            match r {
                Ok((ctrl, arg)) => {
                    &&& live(final(self).graph@, ctrl)
                    &&& live(final(self).graph@, arg)
                    &&& scope_kept(old(self).graph@, final(self).graph@)
                    &&& tidy(old(self).graph@) ==> tidy(final(self).graph@)
                    &&& tidy(old(self).graph@) && old(self).do_optimize ==> folded_node(
                        final(self).graph@,
                        ctrl,
                    ) && folded_node(final(self).graph@, arg)
                    &&& tidy(old(self).graph@) ==> final(self).graph@[ctrl as int]->0.typ@
                        == component(old(self).graph@[START_NID as int]->0.typ@, 0)
                        && final(self).graph@[arg as int]->0.typ@ == component(
                        old(self).graph@[START_NID as int]->0.typ@,
                        1,
                    )
                },
                Err(e) => internal(e),
            },
    {
        let ctrl_nid = match self.add_projection(0, "$ctrl") {
            Ok(n) => n,
            Err(e) => {
                return Err(e);
            },
        };
        let ghost first = self.graph@;
        match self.keep_node(ctrl_nid) {
            Ok(_) => {},
            Err(e) => {
                return Err(e);
            },
        }
        let ghost pinned = self.graph@;
        proof {
            if tidy(old(self).graph@) {
                let start = first[START_NID as int];
                let held = pinned[START_NID as int];
                let ctrl = pinned[ctrl_nid as int];
            }
        }
        let arg = self.add_projection(1, "arg");
        proof {
            if tidy(old(self).graph@) && arg is Ok {
                let ctrl = self.graph@[ctrl_nid as int];
                let made = self.graph@[arg->Ok_0 as int];
            }
        }
        match self.release(ctrl_nid, arg) {
            Ok(arg_nid) => Ok((ctrl_nid, arg_nid)),
            Err(e) => Err(e),
        }
    }

    /// Creates the projection of the component `index` of the start node,
    /// with the label `label`.
    fn add_projection(&mut self, index: usize, label: &str) -> (r: Result<usize, SoNError>)
        ensures
            final(self).same_but_arena(old(self)),
            final(self).grows_from(old(self)),
            pins_held(old(self).graph@, final(self).graph@),
            final(self).linked_from(old(self)),
            tidy(old(self).graph@) ==> (r is Ok ==> final(self).graph.next_uid()
                <= old(self).graph.next_uid() + 2) && (r is Err ==> old(self).graph.next_uid() + 2
                > usize::MAX),
            match r {
                Ok(nid) => {
                    &&& live(final(self).graph@, nid)
                    &&& scope_kept(old(self).graph@, final(self).graph@)
                    &&& live(old(self).graph@, KEEP_ALIVE_NID)
                        ==> final(self).graph@[nid as int]->0.typ@ == component(
                        old(self).graph@[START_NID as int]->0.typ@,
                        index,
                    )
                    &&& live(old(self).graph@, KEEP_ALIVE_NID) && old(self).do_optimize
                        ==> folded_node(final(self).graph@, nid)
                    &&& !old(self).do_optimize ==> {
                        &&& live(old(self).graph@, START_NID)
                        &&& final(self).graph@[nid as int]->0.inputs@ == seq![START_NID]
                        &&& final(self).graph@[nid as int]->0.outputs@ == Seq::<usize>::empty()
                        &&& match final(self).graph@[nid as int]->0.node_kind {
                            NodeKind::Proj { proj_index, _dbg_proj_label } => proj_index == index
                                && _dbg_proj_label@ == label@,
                            _ => false,
                        }
                    }
                },
                Err(e) => internal(e),
            },
    {
        let inputs = vec![START_NID];
        assert(inputs@ =~= seq![START_NID]);
        let kind = NodeKind::Proj { proj_index: index, _dbg_proj_label: String::from_str(label) };
        let ghost before = *self;
        let ghost ins = inputs@;
        let ghost projection = kind;
        let r = self.add_node_unrefined(inputs, kind);
        proof {
            if r is Ok && live(before.graph@, KEEP_ALIVE_NID) {
                lemma_added_typ(&before, self, ins, projection, r);
                if before.do_optimize {
                    lemma_added_folded(&before, self, ins, projection, r);
                }
            }
        }
        r
    }

    /// Runs the collector, with the node `nid` pinned, until a sweep drops
    /// nothing: then every node but the keep-alive node and `nid` has an
    /// observer.
    fn collect_around(&mut self, nid: usize) -> (r: Result<(), SoNError>)
        ensures
            final(self).same_but_graph(old(self)),
            final(self).grows_from(old(self)),
            r is Ok && tidy(old(self).graph@) ==> tidy(final(self).graph@),
            pins_held(old(self).graph@, final(self).graph@),
            final(self).linked_from(old(self)),
            tidy(old(self).graph@) && live(old(self).graph@, nid) ==> r is Ok,
            match r {
                Ok(_) => {
                    &&& live(old(self).graph@, nid)
                    &&& live(final(self).graph@, nid)
                    &&& scope_kept(old(self).graph@, final(self).graph@)
                    &&& return_kept(old(self).graph@, final(self).graph@, nid)
                    &&& forall|n: usize|
                        live(final(self).graph@, n) && n != KEEP_ALIVE_NID && n != nid ==> (
                        #[trigger] final(self).graph@[n as int])->0.outputs@.len() > 0
                },
                Err(e) => e is NodeIdNotExisting,
            },
    {
        match self.keep_node(nid) {
            Ok(_) => {},
            Err(e) => {
                return Err(e);
            },
        }
        proof {
            let held = self.graph@[nid as int]->0.outputs@;
            lemma_count_push(held.drop_last(), KEEP_ALIVE_NID, KEEP_ALIVE_NID);
            assert(held.drop_last().push(KEEP_ALIVE_NID) =~= held);
            lemma_return_pinned(old(self).graph@, self.graph@, nid);
        }
        let ghost pinned = self.graph@;
        let mut dropped = self.drop_unused_nodes();
        proof {
            let gone = choose|gone: Set<usize>|
                crate::services::collector::swept(pinned, self.graph@, gone);
            lemma_return_swept(pinned, self.graph@, gone, nid);
        }
        while dropped > 0
            invariant
                return_kept(old(self).graph@, self.graph@, nid),
                self.same_but_graph(old(self)),
                self.grows_from(old(self)),
                live(self.graph@, nid),
                count(self.graph@[nid as int]->0.outputs@, KEEP_ALIVE_NID) > 0,
                live(self.graph@, KEEP_ALIVE_NID),
                scope_kept(pinned, self.graph@),
                pins_held(pinned, self.graph@),
                self.linked_from(old(self)),
                dropped == 0 ==> forall|n: usize| !droppable(self.graph@, n),
            decreases
                    live_count(self.graph@) + if dropped > 0 {
                        1nat
                    } else {
                        0nat
                    },
        {
            let ghost before = self.graph@;
            dropped = self.drop_unused_nodes();
            proof {
                let gone = choose|gone: Set<usize>|
                    crate::services::collector::swept(before, self.graph@, gone);
                lemma_return_swept(before, self.graph@, gone, nid);
            }
        }
        let ghost swept = self.graph@;
        match self.unkeep_node(nid) {
            Ok(_) => {},
            Err(e) => {
                return Err(e);
            },
        }
        proof {
            lemma_return_pinned(swept, self.graph@, nid);
            assert forall|n: usize|
                live(self.graph@, n) && n != KEEP_ALIVE_NID && n != nid implies (
            #[trigger] self.graph@[n as int])->0.outputs@.len() > 0 by {
                assert(self.graph@[n as int] == swept[n as int]);
                assert(!droppable(swept, n));
            }
        }
        Ok(())
    }

    /// Parses `'{' statement+ '}'` in a scope level of its own and returns the
    /// node of the last statement.  Debug directives between the statements
    /// are passed over.
    pub fn parse_block(&mut self) -> (r: Result<usize, SoNError>)
        ensures
            final(self).proceeds_from(old(self)),
            final(self).grows_from(old(self)),
            pins_held(old(self).graph@, final(self).graph@),
            final(self).linked_from(old(self)),
            final(self).owed(
                old(self),
                r,
                block_folds(
                    old(self).lexer.text(),
                    old(self).lexer.pos() as int,
                    names(old(self).graph@),
                    types_in_scope(old(self).graph@),
                ),
                0,
            ),
            final(self).follows(
                old(self),
                r,
                block(
                    old(self).lexer.text(),
                    old(self).lexer.pos() as int,
                    names(old(self).graph@),
                ),
            ),
            r is Ok && tidy(old(self).graph@) ==> shown(
                final(self).graph@,
                r->Ok_0,
                block_last(
                    old(self).lexer.text(),
                    old(self).lexer.pos() as int,
                    names(old(self).graph@),
                    types_in_scope(old(self).graph@),
                ),
            ) && outer_kept(
                old(self).graph@,
                final(self).graph@,
                names(old(self).graph@).len(),
            ),
            final(self).settles_on(
                old(self),
                r,
                block_folds(
                    old(self).lexer.text(),
                    old(self).lexer.pos() as int,
                    names(old(self).graph@),
                    types_in_scope(old(self).graph@),
                ),
                block_last(
                    old(self).lexer.text(),
                    old(self).lexer.pos() as int,
                    names(old(self).graph@),
                    types_in_scope(old(self).graph@),
                ),
            ),
            r is Ok && tidy(old(self).graph@) && old(self).graph.linked() ==> held_kept(
                old(self).graph@,
                final(self).graph@,
            ),
            match r {
                Ok(nid) => final(self).consumed_since(old(self)) && live(final(self).graph@, nid),
                Err(e) => !(e is DebugPropagateControlFlowUpward),
            },
        decreases old(self).lexer.remaining(), 9nat,
    {
        let ghost s = self.lexer.text();
        let ghost p = self.lexer.pos() as int;
        let ghost q = space_end(s, p);
        let ghost outer = names(self.graph@);
        proof {
            lemma_space_end(s, p);
            reveal_strlit("{");
            reveal_strlit("}");
            assert("{"@ =~= seq!['{']);
            assert("}"@ =~= seq!['}']);
        }
        match self.require("{") {
            Ok(_) => {},
            Err(e) => {
                return Err(e);
            },
        }
        match self.push_scope() {
            Ok(_) => {},
            Err(e) => {
                return Err(e);
            },
        }
        let ghost opened = self.graph@;
        proof {
            if tidy(old(self).graph@) {
                lemma_pushed_types(old(self).graph@, opened);
                if scope_folded(old(self).graph@) {
                    lemma_folded_unbound(old(self).graph@, opened, 0);
                }
            }
        }
        let nid = match self.parse_statements() {
            Ok(n) => n,
            Err(e) => {
                return Err(e);
            },
        };
        proof {
            lemma_space_end(s, self.lexer.pos() as int);
        }
        match self.require("}") {
            Ok(_) => {},
            Err(e) => {
                return Err(e);
            },
        }
        let ghost before = self.graph@;
        proof {
            if tidy(before) && names(before).len() > 0 {
                lemma_top_live(before);
            }
        }
        match self.pop_scope() {
            Ok(_) => {},
            Err(e) => {
                return Err(e);
            },
        }
        proof {
            lemma_pop_keeps_live(before, self.graph@, nid);
            if tidy(old(self).graph@) {
                let n = names(old(self).graph@).len();
                let last = block_last(s, p, outer, types_in_scope(old(self).graph@));
                assert(scope_stack(old(self).graph@)->0.len() == n);
                assert(scope_stack(opened)->0.len() == n + 1);
                assert(names(before).len() == names(opened).len());
                assert(scope_stack(before)->0.len() == n + 1);
                lemma_outer_rebound(before, self.graph@, n);
                lemma_shown_rebound(before, self.graph@, nid, last);
                if scope_folded(before) {
                    lemma_folded_unbound(before, self.graph@, 0);
                    if last is Return {
                        let value = before[nid as int]->0.inputs@[1];
                        assert(self.graph@[nid as int]->0.inputs@ == before[nid as int]->0.inputs@);
                    }
                }
                lemma_outer_twice(old(self).graph@, opened, before, n);
                lemma_outer_twice(old(self).graph@, before, self.graph@, n);
                if old(self).graph.linked() {
                    lemma_held_twice(old(self).graph@, opened, before);
                    lemma_held_twice(old(self).graph@, before, self.graph@);
                }
            }
        }
        Ok(nid)
    }

    /// Parses the statements of a block up to its closing brace, or to the
    /// end of the text, and returns the node of the last one.  There must be
    /// one statement at least; debug directives are passed over.
    #[verifier::rlimit(60)]
    fn parse_statements(&mut self) -> (r: Result<usize, SoNError>)
        ensures
            final(self).proceeds_from(old(self)),
            final(self).grows_from(old(self)),
            pins_held(old(self).graph@, final(self).graph@),
            final(self).linked_from(old(self)),
            names(old(self).graph@).len() > 0 ==> final(self).owed(
                old(self),
                r,
                statements_fold(
                    old(self).lexer.text(),
                    old(self).lexer.pos() as int,
                    names(old(self).graph@),
                    types_in_scope(old(self).graph@),
                    false,
                ),
                0,
            ),
            final(self).follows(
                old(self),
                r,
                statements(
                    old(self).lexer.text(),
                    old(self).lexer.pos() as int,
                    names(old(self).graph@),
                    false,
                ),
            ),
            r is Ok && tidy(old(self).graph@) && names(old(self).graph@).len() > 0 ==> shown(
                final(self).graph@,
                r->Ok_0,
                statements_last(
                    old(self).lexer.text(),
                    old(self).lexer.pos() as int,
                    names(old(self).graph@),
                    types_in_scope(old(self).graph@),
                    false,
                    Last::Other,
                ),
            ) && outer_kept(
                old(self).graph@,
                final(self).graph@,
                (names(old(self).graph@).len() - 1) as nat,
            ),
            names(old(self).graph@).len() > 0 ==> final(self).settles_on(
                old(self),
                r,
                statements_fold(
                    old(self).lexer.text(),
                    old(self).lexer.pos() as int,
                    names(old(self).graph@),
                    types_in_scope(old(self).graph@),
                    false,
                ),
                statements_last(
                    old(self).lexer.text(),
                    old(self).lexer.pos() as int,
                    names(old(self).graph@),
                    types_in_scope(old(self).graph@),
                    false,
                    Last::Other,
                ),
            ),
            r is Ok && tidy(old(self).graph@) && old(self).graph.linked()
                && names(old(self).graph@).len() > 0 ==> held_kept(
                old(self).graph@,
                final(self).graph@,
            ),
            match r {
                Ok(nid) => final(self).consumed_since(old(self)) && live(final(self).graph@, nid),
                Err(e) => !(e is DebugPropagateControlFlowUpward),
            },
        decreases old(self).lexer.remaining(), 11nat,
    {
        let ghost s = self.lexer.text();
        let ghost whole = statements(s, self.lexer.pos() as int, names(self.graph@), false);
        let ghost total = statements_last(
            s,
            self.lexer.pos() as int,
            names(self.graph@),
            types_in_scope(self.graph@),
            false,
            Last::Other,
        );
        let ghost mut env = types_in_scope(self.graph@);
        let ghost mut last = Last::Other;
        let ghost safe = self.do_optimize ==> statements_fold(
            s,
            self.lexer.pos() as int,
            names(self.graph@),
            types_in_scope(self.graph@),
            false,
        );
        let ghost below = (names(self.graph@).len() - 1) as nat;
        let mut node: Option<usize> = None;
        proof {
            reveal_strlit("}");
            assert("}"@ =~= seq!['}']);
            if tidy(self.graph@) && names(self.graph@).len() > 0 {
                lemma_outer_same(self.graph@, below);
                assert(held_kept(self.graph@, self.graph@));
            }
        }
        loop
            invariant
                below == (names(old(self).graph@).len() - 1) as nat,
                total == statements_last(
                    s,
                    old(self).lexer.pos() as int,
                    names(old(self).graph@),
                    types_in_scope(old(self).graph@),
                    false,
                    Last::Other,
                ),
                tidy(old(self).graph@) && names(old(self).graph@).len() > 0 ==> {
                    &&& known(env, self.graph@)
                    &&& node is Some ==> shown(self.graph@, node->0, last)
                    &&& outer_kept(old(self).graph@, self.graph@, below)
                    &&& total == statements_last(
                        s,
                        self.lexer.pos() as int,
                        names(self.graph@),
                        env,
                        node is Some,
                        last,
                    )
                    &&& safe && self.do_optimize ==> statements_fold(
                        s,
                        self.lexer.pos() as int,
                        names(self.graph@),
                        env,
                        node is Some,
                    )
                    &&& safe && self.do_optimize && scope_folded(old(self).graph@)
                        ==> scope_folded(self.graph@) && (node is Some ==> value_folded(
                        self.graph@,
                        node->0,
                        last,
                    ))
                    &&& safe ==> self.graph.next_uid() <= old(self).graph.next_uid() + 2 * (
                    self.lexer.pos() - old(self).lexer.pos())
                    &&& old(self).graph.linked() ==> held_kept(old(self).graph@, self.graph@)
                },
                safe == (old(self).do_optimize ==> statements_fold(
                    s,
                    old(self).lexer.pos() as int,
                    names(old(self).graph@),
                    types_in_scope(old(self).graph@),
                    false,
                )),
                self.lexer.pos() <= s.len() || self.lexer.pos() == old(self).lexer.pos(),
                self.proceeds_from(old(self)),
                self.grows_from(old(self)),
                node is Some ==> self.consumed_since(old(self)),
                s == self.lexer.text(),
                "}"@ == seq!['}'],
                whole == statements(
                    s,
                    old(self).lexer.pos() as int,
                    names(old(self).graph@),
                    false,
                ),
                self.lexer.remaining() <= old(self).lexer.remaining(),
                node is Some ==> live(self.graph@, node->0),
                pins_held(old(self).graph@, self.graph@),
                self.linked_from(old(self)),
                tidy(old(self).graph@) ==> tidy(self.graph@) && names(self.graph@).len() == names(
                    old(self).graph@,
                ).len() && out_mult(self.graph@, SCOPE_NID, KEEP_ALIVE_NID) == out_mult(
                    old(self).graph@,
                    SCOPE_NID,
                    KEEP_ALIVE_NID,
                ) && whole == statements(
                    s,
                    self.lexer.pos() as int,
                    names(self.graph@),
                    node is Some,
                ),
            ensures
                node is Some,
                tidy(old(self).graph@) ==> whole == (Outcome::Accept {
                    end: self.lexer.pos() as int,
                    names: names(self.graph@),
                }),
                tidy(old(self).graph@) && names(old(self).graph@).len() > 0 ==> shown(
                    self.graph@,
                    node->0,
                    total,
                ) && outer_kept(old(self).graph@, self.graph@, below),
                tidy(old(self).graph@) && names(old(self).graph@).len() > 0 && safe
                    ==> self.graph.next_uid() <= old(self).graph.next_uid() + 2 * (
                self.lexer.pos() - old(self).lexer.pos()),
                tidy(old(self).graph@) && names(old(self).graph@).len() > 0
                    && old(self).graph.linked() ==> held_kept(old(self).graph@, self.graph@),
                tidy(old(self).graph@) && names(old(self).graph@).len() > 0 && safe
                    && self.do_optimize && scope_folded(old(self).graph@) ==> scope_folded(
                    self.graph@,
                ) && value_folded(self.graph@, node->0, total),
            decreases self.lexer.remaining(),
        {
            let ghost at = self.lexer.pos() as int;
            let ghost declared_names = names(self.graph@);
            proof {
                lemma_space_end(s, at);
                lemma_space_end(s, space_end(s, at));
            }
            if node.is_some() && (self.lexer.is_eof() || self.lexer.peek_matsch("}")) {
                break ;
            }
            assert(statement(s, self.lexer.pos() as int, declared_names) == statement(
                s,
                at,
                declared_names,
            ));
            let ghost before = self.graph@;
            proof {
                if tidy(old(self).graph@) && names(old(self).graph@).len() > 0 && safe
                    && self.do_optimize {
                    lemma_statement_folds_grow(s, at, declared_names, env, types_in_scope(before));
                }
            }
            match self.parse_statement() {
                Ok(n) => {
                    node = Some(n);
                    proof {
                        if tidy(old(self).graph@) && names(old(self).graph@).len() > 0 {
                            let actual = statement_effect(
                                s,
                                at,
                                declared_names,
                                types_in_scope(before),
                            );
                            let effect = statement_effect(s, at, declared_names, env);
                            lemma_statement_grows(
                                s,
                                at,
                                declared_names,
                                env,
                                types_in_scope(before),
                            );
                            lemma_shown_less(self.graph@, n, effect.last, actual.last);
                            lemma_outer_twice(old(self).graph@, before, self.graph@, below);
                            if old(self).graph.linked() {
                                lemma_held_twice(old(self).graph@, before, self.graph@);
                            }
                            assert forall|name: Seq<char>| #[trigger]
                                effect.env.contains_key(name) implies types_in_scope(
                                self.graph@,
                            ).contains_key(name) && types_in_scope(self.graph@)[name]
                                == effect.env[name] by {
                                assert(actual.env.contains_key(name));
                            }
                            env = effect.env;
                            last = effect.last;
                        }
                    }
                },
                Err(SoNError::DebugPropagateControlFlowUpward) => {},
                Err(e) => {
                    return Err(e);
                },
            }
        }
        match node {
            Some(n) => Ok(n),
            None => Err(SoNError::NodeIdNotExisting),
        }
    }

    /// Parses one statement: a return, a declaration, a block or an
    /// assignment.  The debug directive `#showGraph;` is no statement: it adds
    /// the drawing of the graph to the debug output and is reported as
    /// `DebugPropagateControlFlowUpward`.
    pub fn parse_statement(&mut self) -> (r: Result<usize, SoNError>)
        ensures
            final(self).proceeds_from(old(self)),
            final(self).grows_from(old(self)),
            pins_held(old(self).graph@, final(self).graph@),
            final(self).linked_from(old(self)),
            names(old(self).graph@).len() > 0 ==> final(self).owed(
                old(self),
                r,
                statement_folds(
                    old(self).lexer.text(),
                    old(self).lexer.pos() as int,
                    names(old(self).graph@),
                    types_in_scope(old(self).graph@),
                ),
                0,
            ),
            final(self).follows(
                old(self),
                r,
                statement(
                    old(self).lexer.text(),
                    old(self).lexer.pos() as int,
                    names(old(self).graph@),
                ),
            ),
            final(self).advanced(
                old(self),
                r,
                statement_effect(
                    old(self).lexer.text(),
                    old(self).lexer.pos() as int,
                    names(old(self).graph@),
                    types_in_scope(old(self).graph@),
                ),
            ),
            names(old(self).graph@).len() > 0 ==> final(self).settles_on(
                old(self),
                r,
                statement_folds(
                    old(self).lexer.text(),
                    old(self).lexer.pos() as int,
                    names(old(self).graph@),
                    types_in_scope(old(self).graph@),
                ),
                statement_effect(
                    old(self).lexer.text(),
                    old(self).lexer.pos() as int,
                    names(old(self).graph@),
                    types_in_scope(old(self).graph@),
                ).last,
            ),
            r is Ok && tidy(old(self).graph@) && old(self).graph.linked()
                && names(old(self).graph@).len() > 0 ==> held_kept(
                old(self).graph@,
                final(self).graph@,
            ),
            match r {
                Ok(nid) => final(self).consumed_since(old(self)) && live(final(self).graph@, nid),
                Err(SoNError::DebugPropagateControlFlowUpward) => {
                    &&& final(self).consumed_since(old(self))
                    &&& final(self).graph == old(self).graph
                    &&& final(self)._dbg_output@ == old(self)._dbg_output@ + "#showGraph@"@
                        + position_text(final(self).lexer) + "\n"@ + dot_text(
                        old(self).lexer.text(),
                        old(self).graph@,
                    )
                },
                Err(_) => true,
            },
        decreases old(self).lexer.remaining(), 10nat,
    {
        let ghost s = self.lexer.text();
        let ghost p = self.lexer.pos() as int;
        let ghost q = space_end(s, p);
        let ghost declared_names = names(self.graph@);
        proof {
            lemma_space_end(s, p);
            lemma_space_end(s, q);
            reveal_strlit("#showGraph;");
            reveal_strlit("{");
            assert("{"@ =~= seq!['{']);
        }
        if self.lexer.matsch("#showGraph;") {
            let ghost before = self._dbg_output@;
            self._dbg_output.append("#showGraph@");
            let position = self.lexer.dbg_position_string();
            self._dbg_output.append(position.as_str());
            self._dbg_output.append("\n");
            let dot = self.as_dotfile();
            self._dbg_output.append(dot.as_str());
            assert(self._dbg_output@ =~= before + "#showGraph@"@ + position_text(self.lexer) + "\n"@
                + dot_text(old(self).lexer.text(), old(self).graph@));
            return Err(SoNError::DebugPropagateControlFlowUpward);
        }
        let r = if self.lexer.peek_matschx("return") {
            assert(return_statement(s, q, declared_names)
                == return_statement(s, p, declared_names));
            self.parse_return_stmnt()
        } else if self.lexer.peek_matschx("int") {
            assert(declaration(s, q, declared_names) == declaration(s, p, declared_names));
            self.parse_decl_stmnt()
        } else if self.lexer.peek_matsch("{") {
            self.parse_block()
        } else {
            assert(assignment(s, q, declared_names) == assignment(s, p, declared_names));
            self.parse_expression_stmnt()
        };
        proof {
            if tidy(old(self).graph@) && r is Ok && declared_names.len() > 0 {
                let env = types_in_scope(old(self).graph@);
                let below = (declared_names.len() - 1) as nat;
                assert(block_last(s, q, declared_names, env) == block_last(
                    s,
                    p,
                    declared_names,
                    env,
                ));
                if crate::services::lexer::word_at(s, q, "return"@) {
                    lemma_held_scope_kept(old(self).graph@, self.graph@);
                    lemma_scope_kept_types(old(self).graph@, self.graph@);
                    lemma_outer_scope_kept(old(self).graph@, self.graph@, below);
                } else if crate::services::lexer::word_at(s, q, "int"@) {
                } else if starts_at(s, q, seq!['{']) {
                    lemma_outer_types(old(self).graph@, self.graph@);
                    lemma_outer_fewer(
                        old(self).graph@,
                        self.graph@,
                        declared_names.len(),
                        below,
                    );
                }
            }
        }
        match r {
            Err(SoNError::DebugPropagateControlFlowUpward) => Err(SoNError::NodeIdNotExisting),
            other => other,
        }
    }

    /// Parses `'int' identifier '=' expression ';'` and binds the name in the
    /// innermost scope level, which must not bind it yet.
    pub fn parse_decl_stmnt(&mut self) -> (r: Result<usize, SoNError>)
        ensures
            final(self).proceeds_from(old(self)),
            final(self).grows_from(old(self)),
            pins_held(old(self).graph@, final(self).graph@),
            final(self).linked_from(old(self)),
            names(old(self).graph@).len() > 0 ==> final(self).owed(
                old(self),
                r,
                binding_folds(
                    old(self).lexer.text(),
                    space_end(
                        old(self).lexer.text(),
                        space_end(old(self).lexer.text(), old(self).lexer.pos() as int) + "int"@.len(),
                    ),
                    names(old(self).graph@),
                    types_in_scope(old(self).graph@),
                ),
                0,
            ),
            final(self).follows(
                old(self),
                r,
                declaration(
                    old(self).lexer.text(),
                    old(self).lexer.pos() as int,
                    names(old(self).graph@),
                ),
            ),
            r is Ok ==> crate::services::scope::lookup(
                scope_stack(final(self).graph@)->0,
                identifier(old(self).lexer.text(), space_end(
                        old(self).lexer.text(),
                        space_end(old(self).lexer.text(), old(self).lexer.pos() as int)
                            + "int"@.len(),
                    )),
                scope_stack(final(self).graph@)->0.len(),
            ) == Some(r->Ok_0),
            r is Ok && tidy(old(self).graph@) ==> ({
                let s = old(self).lexer.text();
                let at = space_end(
                    s,
                    space_end(s, old(self).lexer.pos() as int) + "int"@.len(),
                );
                &&& known(
                    bound_env(
                        types_in_scope(old(self).graph@),
                        identifier(s, at),
                        binding_typ(
                            s,
                            at,
                            names(old(self).graph@),
                            types_in_scope(old(self).graph@),
                        ),
                    ),
                    final(self).graph@,
                )
                &&& outer_kept(
                    old(self).graph@,
                    final(self).graph@,
                    (names(old(self).graph@).len() - 1) as nat,
                )
            }),
            names(old(self).graph@).len() > 0 ==> final(self).settles_on(
                old(self),
                r,
                binding_folds(
                    old(self).lexer.text(),
                    space_end(
                        old(self).lexer.text(),
                        space_end(old(self).lexer.text(), old(self).lexer.pos() as int) + "int"@.len(),
                    ),
                    names(old(self).graph@),
                    types_in_scope(old(self).graph@),
                ),
                Last::Other,
            ),
            r is Ok && tidy(old(self).graph@) && old(self).graph.linked()
                && names(old(self).graph@).len() > 0 ==> held_kept(
                old(self).graph@,
                final(self).graph@,
            ),
            match r {
                Ok(nid) => final(self).consumed_since(old(self)) && live(final(self).graph@, nid),
                Err(e) => !(e is DebugPropagateControlFlowUpward),
            },
        decreases old(self).lexer.remaining(), 9nat,
    {
        let ghost s = self.lexer.text();
        let ghost p = self.lexer.pos() as int;
        proof {
            lemma_space_end(s, p);
            reveal_strlit("int");
        }
        if !self.lexer.matschx("int") {
            return Err(
                SoNError::SyntaxExpected {
                    expected: String::from_str("int"),
                    but_got: self.lexer.dbg_get_any_next_token(),
                },
            );
        }
        proof {
            lemma_space_end(s, self.lexer.pos() as int);
            lemma_space_end(s, space_end(s, self.lexer.pos() as int));
        }
        let (name, expression) = match self.parse_binding() {
            Ok(b) => b,
            Err(e) => {
                return Err(e);
            },
        };
        let ghost bound = self.graph@;
        match self.define_var(name.as_str(), expression) {
            Ok(_) => {},
            Err(e) => {
                return Err(e);
            },
        }
        proof {
            let cell = self.graph@[expression as int];
            if tidy(old(self).graph@) && old(self).graph.linked() {
                lemma_held_scope_kept(old(self).graph@, bound);
                lemma_held_twice(old(self).graph@, bound, self.graph@);
            }
            if tidy(old(self).graph@) {
                let stack = scope_stack(bound)->0;
                let at = space_end(s, space_end(s, p) + "int"@.len());
                lemma_declared_known(
                    old(self).graph@,
                    bound,
                    self.graph@,
                    name@,
                    expression,
                    crate::services::scope::insert_pos(stack.last(), name@, 0),
                    binding_typ(s, at, names(old(self).graph@), types_in_scope(old(self).graph@)),
                );
                if self.do_optimize && scope_folded(bound) && folded_node(bound, expression) {
                    lemma_folded_defined(
                        bound,
                        self.graph@,
                        name@,
                        expression,
                        crate::services::scope::insert_pos(stack.last(), name@, 0),
                    );
                }
            }
        }
        Ok(expression)
    }

    /// Parses `identifier '=' expression ';'` and returns the identifier with
    /// the node of the expression.
    fn parse_binding(&mut self) -> (r: Result<(String, usize), SoNError>)
        ensures
            final(self).proceeds_from(old(self)),
            final(self).grows_from(old(self)),
            r is Ok ==> scope_kept(old(self).graph@, final(self).graph@),
            pins_held(old(self).graph@, final(self).graph@),
            final(self).linked_from(old(self)),
            final(self).owed(
                old(self),
                match r {
                    Ok((_, nid)) => Ok(nid),
                    Err(e) => Err(e),
                },
                binding_folds(
                    old(self).lexer.text(),
                    space_end(old(self).lexer.text(), old(self).lexer.pos() as int),
                    names(old(self).graph@),
                    types_in_scope(old(self).graph@),
                ),
                0,
            ),
            final(self).settles(
                old(self),
                match r {
                    Ok((_, nid)) => Ok(nid),
                    Err(e) => Err(e),
                },
                binding_folds(
                    old(self).lexer.text(),
                    space_end(old(self).lexer.text(), old(self).lexer.pos() as int),
                    names(old(self).graph@),
                    types_in_scope(old(self).graph@),
                ),
            ),
            ({
                let s = old(self).lexer.text();
                let at = space_end(s, old(self).lexer.pos() as int);
                let o = binding(s, at, names(old(self).graph@));
                match r {
                    Ok((name, nid)) => {
                        &&& final(self).follows(old(self), Ok(nid), o)
                        &&& name@ == identifier(s, at)
                        &&& final(self).consumed_since(old(self))
                        &&& live(final(self).graph@, nid)
                        &&& final(self).typed(
                            old(self),
                            Ok(nid),
                            binding_typ(
                                s,
                                at,
                                names(old(self).graph@),
                                types_in_scope(old(self).graph@),
                            ),
                        )
                    },
                    Err(e) => final(self).follows(old(self), Err(e), o) && !(e
                        is DebugPropagateControlFlowUpward),
                }
            }),
        decreases old(self).lexer.remaining(), 8nat, 1nat,
    {
        let ghost s = self.lexer.text();
        let ghost p = self.lexer.pos() as int;
        proof {
            lemma_space_end(s, p);
            lemma_space_end(s, space_end(s, p));
            reveal_strlit("=");
            reveal_strlit(";");
            assert("="@ =~= seq!['=']);
            assert(";"@ =~= seq![';']);
        }
        let name = match self.require_and_get_identifier() {
            Ok(n) => n,
            Err(e) => {
                return Err(e);
            },
        };
        proof {
            lemma_space_end(s, self.lexer.pos() as int);
        }
        match self.require("=") {
            Ok(_) => {},
            Err(e) => {
                return Err(e);
            },
        }
        let expression = match self.parse_expression() {
            Ok(n) => n,
            Err(e) => {
                return Err(e);
            },
        };
        proof {
            lemma_space_end(s, self.lexer.pos() as int);
        }
        match self.require(";") {
            Ok(_) => {},
            Err(e) => {
                return Err(e);
            },
        }
        Ok((name, expression))
    }

    /// Parses `identifier '=' expression ';'` and binds the name, which the
    /// innermost scope level must bind already, to the new node.
    pub fn parse_expression_stmnt(&mut self) -> (r: Result<usize, SoNError>)
        ensures
            final(self).proceeds_from(old(self)),
            final(self).grows_from(old(self)),
            pins_held(old(self).graph@, final(self).graph@),
            final(self).linked_from(old(self)),
            names(old(self).graph@).len() > 0 ==> final(self).owed(
                old(self),
                r,
                binding_folds(
                    old(self).lexer.text(),
                    space_end(old(self).lexer.text(), old(self).lexer.pos() as int),
                    names(old(self).graph@),
                    types_in_scope(old(self).graph@),
                ),
                0,
            ),
            final(self).follows(
                old(self),
                r,
                assignment(
                    old(self).lexer.text(),
                    old(self).lexer.pos() as int,
                    names(old(self).graph@),
                ),
            ),
            r is Ok ==> crate::services::scope::lookup(
                scope_stack(final(self).graph@)->0,
                identifier(
                    old(self).lexer.text(),
                    space_end(old(self).lexer.text(), old(self).lexer.pos() as int),
                ),
                scope_stack(final(self).graph@)->0.len(),
            ) == Some(r->Ok_0),
            r is Ok && tidy(old(self).graph@) ==> ({
                let s = old(self).lexer.text();
                let at = space_end(s, old(self).lexer.pos() as int);
                &&& known(
                    bound_env(
                        types_in_scope(old(self).graph@),
                        identifier(s, at),
                        binding_typ(
                            s,
                            at,
                            names(old(self).graph@),
                            types_in_scope(old(self).graph@),
                        ),
                    ),
                    final(self).graph@,
                )
                &&& outer_kept(
                    old(self).graph@,
                    final(self).graph@,
                    (names(old(self).graph@).len() - 1) as nat,
                )
            }),
            names(old(self).graph@).len() > 0 ==> final(self).settles_on(
                old(self),
                r,
                binding_folds(
                    old(self).lexer.text(),
                    space_end(old(self).lexer.text(), old(self).lexer.pos() as int),
                    names(old(self).graph@),
                    types_in_scope(old(self).graph@),
                ),
                Last::Other,
            ),
            r is Ok && tidy(old(self).graph@) && old(self).graph.linked()
                && names(old(self).graph@).len() > 0 ==> held_kept(
                old(self).graph@,
                final(self).graph@,
            ),
            match r {
                Ok(nid) => final(self).consumed_since(old(self)) && live(final(self).graph@, nid),
                Err(e) => !(e is DebugPropagateControlFlowUpward),
            },
        decreases old(self).lexer.remaining(), 9nat,
    {
        let ghost s = self.lexer.text();
        let ghost p = self.lexer.pos() as int;
        proof {
            lemma_space_end(s, p);
            lemma_space_end(s, space_end(s, p));
        }
        let (name, expression) = match self.parse_binding() {
            Ok(b) => b,
            Err(e) => {
                return Err(e);
            },
        };
        let ghost bound = self.graph@;
        proof {
            if scope_stack(bound) is Some {
                lemma_found_declared(bound, name@);
            }
            if tidy(bound) && names(bound).len() > 0 {
                lemma_top_live(bound);
                crate::services::scope::lemma_find_name(scope_stack(bound)->0.last(), name@, 0);
            }
        }
        if self.get_var(name.as_str()).is_none() {
            return Err(SoNError::VariableUndefined { variable: name });
        }
        match self.undefine_var(name.as_str()) {
            Ok(_) => {},
            Err(e) => {
                return Err(e);
            },
        }
        let ghost unbound = self.graph@;
        proof {
            let cell = unbound[expression as int];
            assert(live(unbound, expression)) by {
                crate::services::scope::lemma_undefine_keeps_live(bound, unbound, expression);
            }
        }
        match self.define_var(name.as_str(), expression) {
            Ok(_) => {},
            Err(SoNError::VariableRedefinition { variable }) => {
                return Err(SoNError::NodeIdNotExisting);
            },
            Err(e) => {
                return Err(e);
            },
        }
        proof {
            let cell = self.graph@[expression as int];
            let before = names(bound);
            if tidy(old(self).graph@) && old(self).graph.linked() {
                lemma_held_scope_kept(old(self).graph@, bound);
                lemma_held_twice(old(self).graph@, bound, unbound);
                lemma_held_twice(old(self).graph@, unbound, self.graph@);
            }
            if tidy(old(self).graph@) {
                assert(before.last().remove(name@).insert(name@) =~= before.last());
                assert(names(self.graph@) =~~= before);
                let stack = scope_stack(bound)->0;
                if self.do_optimize && scope_folded(bound) && folded_node(bound, expression) {
                    lemma_folded_unbound(
                        bound,
                        unbound,
                        crate::services::scope::find_name(stack.last(), name@, 0),
                    );
                    lemma_folded_defined(
                        unbound,
                        self.graph@,
                        name@,
                        expression,
                        crate::services::scope::insert_pos(
                            scope_stack(unbound)->0.last(),
                            name@,
                            0,
                        ),
                    );
                }
                lemma_assigned_known(
                    old(self).graph@,
                    bound,
                    unbound,
                    self.graph@,
                    name@,
                    expression,
                    crate::services::scope::find_name(stack.last(), name@, 0),
                    crate::services::scope::insert_pos(scope_stack(unbound)->0.last(), name@, 0),
                    binding_typ(
                        s,
                        space_end(s, p),
                        names(old(self).graph@),
                        types_in_scope(old(self).graph@),
                    ),
                );
            }
        }
        Ok(expression)
    }

    /// Parses `'return' expression ';'` into a return node over the current
    /// control node and the value.
    pub fn parse_return_stmnt(&mut self) -> (r: Result<usize, SoNError>)
        ensures
            final(self).proceeds_from(old(self)),
            final(self).grows_from(old(self)),
            r is Ok ==> scope_kept(old(self).graph@, final(self).graph@),
            pins_held(old(self).graph@, final(self).graph@),
            final(self).linked_from(old(self)),
            final(self).owed(
                old(self),
                r,
                expression_folds(
                    old(self).lexer.text(),
                    space_end(old(self).lexer.text(), old(self).lexer.pos() as int) + "return"@.len(),
                    names(old(self).graph@),
                    types_in_scope(old(self).graph@),
                ),
                0,
            ),
            final(self).follows(
                old(self),
                r,
                return_statement(
                    old(self).lexer.text(),
                    old(self).lexer.pos() as int,
                    names(old(self).graph@),
                ),
            ),
            r is Ok ==> final(self).built(old(self), r->Ok_0, NodeKind::Return, 2),
            r is Ok && tidy(old(self).graph@) ==> yields(
                final(self).graph@,
                r->Ok_0,
                return_typ(
                    old(self).lexer.text(),
                    old(self).lexer.pos() as int,
                    names(old(self).graph@),
                    types_in_scope(old(self).graph@),
                ),
            ),
            r is Ok && tidy(old(self).graph@) && !old(self).do_optimize ==> Some(
                final(self).graph@[r->Ok_0 as int]->0.inputs@[0],
            ) == crate::services::scope::lookup(
                scope_stack(old(self).graph@)->0,
                "$ctrl"@,
                scope_stack(old(self).graph@)->0.len(),
            ),
            final(self).settles_on(
                old(self),
                r,
                expression_folds(
                    old(self).lexer.text(),
                    space_end(old(self).lexer.text(), old(self).lexer.pos() as int) + "return"@.len(),
                    names(old(self).graph@),
                    types_in_scope(old(self).graph@),
                ),
                Last::Return { typ: None },
            ),
            match r {
                Ok(nid) => final(self).consumed_since(old(self)) && live(final(self).graph@, nid),
                Err(e) => !(e is DebugPropagateControlFlowUpward),
            },
        decreases old(self).lexer.remaining(), 9nat,
    {
        let ghost s = self.lexer.text();
        let ghost p = self.lexer.pos() as int;
        proof {
            lemma_space_end(s, p);
            reveal_strlit("return");
            reveal_strlit(";");
            assert(";"@ =~= seq![';']);
        }
        if !self.lexer.matschx("return") {
            return Err(
                SoNError::SyntaxExpected {
                    expected: String::from_str("return"),
                    but_got: self.lexer.dbg_get_any_next_token(),
                },
            );
        }
        let primary = match self.parse_expression() {
            Ok(n) => n,
            Err(e) => {
                return Err(e);
            },
        };
        proof {
            lemma_space_end(s, self.lexer.pos() as int);
        }
        match self.require(";") {
            Ok(_) => {},
            Err(e) => {
                return Err(e);
            },
        }
        proof {
            if scope_stack(self.graph@) is Some {
                lemma_found_declared(self.graph@, "$ctrl"@);
                if tidy(self.graph@) && declared(names(self.graph@), "$ctrl"@) {
                    lemma_found_live(self.graph@, "$ctrl"@);
                }
            }
        }
        let ctrl = match self.ctrl() {
            Some(c) => c,
            None => {
                return Err(SoNError::VariableUndefined { variable: String::from_str("$ctrl") });
            },
        };
        let inputs = vec![ctrl, primary];
        assert(inputs@ =~= seq![ctrl, primary]);
        assert(inputs@[1] == primary);
        let ghost parsed = self.graph@;
        let r = self.add_node_unrefined(inputs, NodeKind::Return);
        proof {
            if tidy(old(self).graph@) && r is Ok && self.do_optimize && scope_folded(parsed) {
                lemma_folded_scope_kept(parsed, self.graph@);
            }
        }
        r
    }

    /// Parses an expression: `additiveExpr`.
    pub fn parse_expression(&mut self) -> (r: Result<usize, SoNError>)
        ensures
            final(self).proceeds_from(old(self)),
            final(self).grows_from(old(self)),
            r is Ok ==> scope_kept(old(self).graph@, final(self).graph@),
            pins_held(old(self).graph@, final(self).graph@),
            final(self).linked_from(old(self)),
            final(self).owed(
                old(self),
                r,
                expression_folds(
                    old(self).lexer.text(),
                    old(self).lexer.pos() as int,
                    names(old(self).graph@),
                    types_in_scope(old(self).graph@),
                ),
                0,
            ),
            final(self).follows(
                old(self),
                r,
                expression(
                    old(self).lexer.text(),
                    old(self).lexer.pos() as int,
                    names(old(self).graph@),
                ),
            ),
            final(self).typed(
                old(self),
                r,
                expression_typ(
                    old(self).lexer.text(),
                    old(self).lexer.pos() as int,
                    names(old(self).graph@),
                    types_in_scope(old(self).graph@),
                ),
            ),
            final(self).settles(old(self), r, expression_folds(
                old(self).lexer.text(),
                old(self).lexer.pos() as int,
                names(old(self).graph@),
                types_in_scope(old(self).graph@),
            )),
            match r {
                Ok(nid) => final(self).consumed_since(old(self)) && live(final(self).graph@, nid),
                Err(e) => !(e is DebugPropagateControlFlowUpward),
            },
        decreases old(self).lexer.remaining(), 8nat,
    {
        self.parse_addition()
    }

    /// Parses `multiplicativeExpr (('+' | '-') additiveExpr)?`.  The left operand
    /// is pinned while the right one is parsed.
    pub fn parse_addition(&mut self) -> (r: Result<usize, SoNError>)
        ensures
            final(self).proceeds_from(old(self)),
            final(self).grows_from(old(self)),
            r is Ok ==> scope_kept(old(self).graph@, final(self).graph@),
            pins_held(old(self).graph@, final(self).graph@),
            final(self).linked_from(old(self)),
            final(self).owed(
                old(self),
                r,
                addition_folds(
                    old(self).lexer.text(),
                    old(self).lexer.pos() as int,
                    names(old(self).graph@),
                    types_in_scope(old(self).graph@),
                ),
                0,
            ),
            final(self).follows(
                old(self),
                r,
                addition(
                    old(self).lexer.text(),
                    old(self).lexer.pos() as int,
                    names(old(self).graph@),
                ),
            ),
            r is Ok && tidy(old(self).graph@) ==> match multiplication(
                old(self).lexer.text(),
                old(self).lexer.pos() as int,
                names(old(self).graph@),
            ) {
                Outcome::Accept { end, .. } => {
                    let q = space_end(old(self).lexer.text(), end);
                    if starts_at(old(self).lexer.text(), q, seq!['+']) {
                        final(self).built(old(self), r->Ok_0, NodeKind::Add, 2)
                    } else if starts_at(old(self).lexer.text(), q, seq!['-']) {
                        final(self).built(old(self), r->Ok_0, NodeKind::Sub, 2)
                    } else {
                        true
                    }
                },
                _ => true,
            },
            final(self).typed(
                old(self),
                r,
                addition_typ(
                    old(self).lexer.text(),
                    old(self).lexer.pos() as int,
                    names(old(self).graph@),
                    types_in_scope(old(self).graph@),
                ),
            ),
            final(self).settles(old(self), r, addition_folds(
                old(self).lexer.text(),
                old(self).lexer.pos() as int,
                names(old(self).graph@),
                types_in_scope(old(self).graph@),
            )),
            match r {
                Ok(nid) => final(self).consumed_since(old(self)) && live(final(self).graph@, nid),
                Err(e) => !(e is DebugPropagateControlFlowUpward),
            },
        decreases old(self).lexer.remaining(), 7nat,
    {
        let ghost s = self.lexer.text();
        let ghost p = self.lexer.pos() as int;
        let lhs = match self.parse_multiplication() {
            Ok(n) => n,
            Err(e) => {
                return Err(e);
            },
        };
        let ghost end = self.lexer.pos() as int;
        proof {
            if tidy(old(self).graph@) {
                lemma_scope_kept_types(old(self).graph@, self.graph@);
            }
            lemma_space_end(s, end);
            lemma_space_end(s, space_end(s, end));
            reveal_strlit("+");
            reveal_strlit("-");
            assert("+"@ =~= seq!['+']);
            assert("-"@ =~= seq!['-']);
        }
        let first = self.lexer.matsch("+");
        if !first {
            if !self.lexer.matsch("-") {
                return Ok(lhs);
            }
        }
        let kind = if first {
            NodeKind::Add
        } else {
            NodeKind::Sub
        };
        self.parse_right(lhs, kind, true)
    }

    /// Parses `unaryExpr (('*' | '/') multiplicativeExpr)?`.  The left operand is
    /// pinned while the right one is parsed.
    pub fn parse_multiplication(&mut self) -> (r: Result<usize, SoNError>)
        ensures
            final(self).proceeds_from(old(self)),
            final(self).grows_from(old(self)),
            r is Ok ==> scope_kept(old(self).graph@, final(self).graph@),
            pins_held(old(self).graph@, final(self).graph@),
            final(self).linked_from(old(self)),
            final(self).owed(
                old(self),
                r,
                multiplication_folds(
                    old(self).lexer.text(),
                    old(self).lexer.pos() as int,
                    names(old(self).graph@),
                    types_in_scope(old(self).graph@),
                ),
                0,
            ),
            final(self).follows(
                old(self),
                r,
                multiplication(
                    old(self).lexer.text(),
                    old(self).lexer.pos() as int,
                    names(old(self).graph@),
                ),
            ),
            r is Ok && tidy(old(self).graph@) ==> match unary(
                old(self).lexer.text(),
                old(self).lexer.pos() as int,
                names(old(self).graph@),
            ) {
                Outcome::Accept { end, .. } => {
                    let q = space_end(old(self).lexer.text(), end);
                    if starts_at(old(self).lexer.text(), q, seq!['*']) {
                        final(self).built(old(self), r->Ok_0, NodeKind::Mul, 2)
                    } else if starts_at(old(self).lexer.text(), q, seq!['/']) {
                        final(self).built(old(self), r->Ok_0, NodeKind::Div, 2)
                    } else {
                        true
                    }
                },
                _ => true,
            },
            final(self).typed(
                old(self),
                r,
                multiplication_typ(
                    old(self).lexer.text(),
                    old(self).lexer.pos() as int,
                    names(old(self).graph@),
                    types_in_scope(old(self).graph@),
                ),
            ),
            final(self).settles(old(self), r, multiplication_folds(
                old(self).lexer.text(),
                old(self).lexer.pos() as int,
                names(old(self).graph@),
                types_in_scope(old(self).graph@),
            )),
            match r {
                Ok(nid) => final(self).consumed_since(old(self)) && live(final(self).graph@, nid),
                Err(e) => !(e is DebugPropagateControlFlowUpward),
            },
        decreases old(self).lexer.remaining(), 6nat,
    {
        let ghost s = self.lexer.text();
        let ghost p = self.lexer.pos() as int;
        let lhs = match self.parse_unary() {
            Ok(n) => n,
            Err(e) => {
                return Err(e);
            },
        };
        let ghost end = self.lexer.pos() as int;
        proof {
            if tidy(old(self).graph@) {
                lemma_scope_kept_types(old(self).graph@, self.graph@);
            }
            lemma_space_end(s, end);
            lemma_space_end(s, space_end(s, end));
            reveal_strlit("*");
            reveal_strlit("/");
            assert("*"@ =~= seq!['*']);
            assert("/"@ =~= seq!['/']);
        }
        let first = self.lexer.matsch("*");
        if !first {
            if !self.lexer.matsch("/") {
                return Ok(lhs);
            }
        }
        let kind = if first {
            NodeKind::Mul
        } else {
            NodeKind::Div
        };
        self.parse_right(lhs, kind, false)
    }

    /// Parses the right operand of a node of kind `kind` whose left operand is
    /// `lhs`, an additive expression if `additive` is set and a multiplicative
    /// one if not, and creates the node.  The left operand is pinned while the
    /// right one is parsed.
    #[verifier::rlimit(60)]
    fn parse_right(&mut self, lhs: usize, kind: NodeKind, additive: bool) -> (r: Result<
        usize,
        SoNError,
    >)
        ensures
            final(self).proceeds_from(old(self)),
            final(self).grows_from(old(self)),
            r is Ok ==> scope_kept(old(self).graph@, final(self).graph@),
            pins_held(old(self).graph@, final(self).graph@),
            final(self).linked_from(old(self)),
            live(old(self).graph@, lhs) && !(kind is Constant) ==> final(self).owed(
                old(self),
                r,
                right_folds(
                    old(self).lexer.text(),
                    old(self).lexer.pos() as int,
                    names(old(self).graph@),
                    types_in_scope(old(self).graph@),
                    kind,
                    old(self).graph@[lhs as int]->0.typ@,
                    additive,
                ),
                2,
            ),
            final(self).follows(
                old(self),
                r,
                if additive {
                    addition(
                        old(self).lexer.text(),
                        old(self).lexer.pos() as int,
                        names(old(self).graph@),
                    )
                } else {
                    multiplication(
                        old(self).lexer.text(),
                        old(self).lexer.pos() as int,
                        names(old(self).graph@),
                    )
                },
            ),
            r is Ok ==> final(self).built(old(self), r->Ok_0, kind, 2) && (!old(self).do_optimize
                ==> final(self).graph@[r->Ok_0 as int]->0.inputs@[0] == lhs),
            live(old(self).graph@, lhs) && !(kind is Constant) ==> final(self).typed(
                old(self),
                r,
                folded(
                    kind,
                    Some(old(self).graph@[lhs as int]->0.typ@),
                    if additive {
                        addition_typ(
                            old(self).lexer.text(),
                            old(self).lexer.pos() as int,
                            names(old(self).graph@),
                            types_in_scope(old(self).graph@),
                        )
                    } else {
                        multiplication_typ(
                            old(self).lexer.text(),
                            old(self).lexer.pos() as int,
                            names(old(self).graph@),
                            types_in_scope(old(self).graph@),
                        )
                    },
                ),
            ),
            live(old(self).graph@, lhs) && !(kind is Constant) ==> final(self).settles(
                old(self),
                r,
                right_folds(
                    old(self).lexer.text(),
                    old(self).lexer.pos() as int,
                    names(old(self).graph@),
                    types_in_scope(old(self).graph@),
                    kind,
                    old(self).graph@[lhs as int]->0.typ@,
                    additive,
                ),
            ),
            match r {
                Ok(nid) => final(self).consumed_since(old(self)) && live(final(self).graph@, nid),
                Err(e) => !(e is DebugPropagateControlFlowUpward),
            },
        decreases old(self).lexer.remaining(), 12nat,
    {
        match self.keep_node(lhs) {
            Ok(_) => {},
            Err(e) => {
                return Err(e);
            },
        }
        proof {
            if tidy(old(self).graph@) {
                lemma_scope_kept_types(old(self).graph@, self.graph@);
                if scope_folded(old(self).graph@) {
                    lemma_folded_scope_kept(old(self).graph@, self.graph@);
                }
            }
        }
        let ghost pinned = self.graph@;
        let right = if additive {
            self.parse_addition()
        } else {
            self.parse_multiplication()
        };
        let ghost parsed = self.graph@;
        let ghost operands = *self;
        let result = match right {
            Ok(rhs) => {
                let inputs = vec![lhs, rhs];
                assert(inputs@ =~= seq![lhs, rhs]);
                assert(inputs@.contains(lhs)) by {
                    assert(inputs@[0] == lhs);
                }
                let ghost ins = inputs@;
                let made = self.add_node_unrefined(inputs, kind);
                proof {
                    if tidy(old(self).graph@) && made is Ok && !(kind is Constant) && refined_from(
                        parsed,
                        ins,
                        kind,
                        TypV::Bot,
                    ).is_constant() {
                        assert(parsed[lhs as int]->0.typ@ == pinned[lhs as int]->0.typ@);
                        lemma_added_typ(&operands, self, ins, kind, made);
                    }
                    if tidy(old(self).graph@) && made is Ok && !(kind is Constant)
                        && self.do_optimize && scope_folded(parsed) && (refined_from(
                        parsed,
                        ins,
                        kind,
                        TypV::Bot,
                    ).is_constant() || kind is Sub) {
                        lemma_added_folded(&operands, self, ins, kind, made);
                        lemma_folded_scope_kept(parsed, self.graph@);
                    }
                }
                made
            },
            Err(e) => Err(e),
        };
        let ghost joined = self.graph@;
        let r = self.release(lhs, result);
        proof {
            if tidy(old(self).graph@) && r is Ok && scope_folded(joined) && tidy(joined) {
                lemma_folded_scope_kept(joined, self.graph@);
                let cell = self.graph@[r->Ok_0 as int];
            }
            if r is Ok && !self.do_optimize {
                let nid = r->Ok_0;
                assert(live(parsed, KEEP_ALIVE_NID));
                assert(self.graph@[nid as int] == joined[nid as int]);
                assert forall|i: int|
                    0 <= i < joined[nid as int]->0.inputs@.len() implies live(
                    self.graph@,
                    #[trigger] joined[nid as int]->0.inputs@[i],
                ) by {
                    let x = joined[nid as int]->0.inputs@[i];
                    assert(live(joined, x));
                    if x != KEEP_ALIVE_NID && x != lhs {
                        assert(self.graph@[x as int] == joined[x as int]);
                    }
                }
            }
        }
        r
    }

    /// Parses `'-' unaryExpr | primaryExpr`.
    pub fn parse_unary(&mut self) -> (r: Result<usize, SoNError>)
        ensures
            final(self).proceeds_from(old(self)),
            final(self).grows_from(old(self)),
            r is Ok ==> scope_kept(old(self).graph@, final(self).graph@),
            pins_held(old(self).graph@, final(self).graph@),
            final(self).linked_from(old(self)),
            final(self).owed(
                old(self),
                r,
                unary_folds(
                    old(self).lexer.text(),
                    old(self).lexer.pos() as int,
                    names(old(self).graph@),
                    types_in_scope(old(self).graph@),
                ),
                0,
            ),
            final(self).follows(
                old(self),
                r,
                unary(
                    old(self).lexer.text(),
                    old(self).lexer.pos() as int,
                    names(old(self).graph@),
                ),
            ),
            r is Ok && starts_at(
                old(self).lexer.text(),
                old(self).lexer.after_space(),
                seq!['-'],
            ) ==> final(self).built(old(self), r->Ok_0, NodeKind::Minus, 1),
            final(self).typed(
                old(self),
                r,
                unary_typ(
                    old(self).lexer.text(),
                    old(self).lexer.pos() as int,
                    names(old(self).graph@),
                    types_in_scope(old(self).graph@),
                ),
            ),
            final(self).settles(old(self), r, unary_folds(
                old(self).lexer.text(),
                old(self).lexer.pos() as int,
                names(old(self).graph@),
                types_in_scope(old(self).graph@),
            )),
            match r {
                Ok(nid) => final(self).consumed_since(old(self)) && live(final(self).graph@, nid),
                Err(e) => !(e is DebugPropagateControlFlowUpward),
            },
        decreases old(self).lexer.remaining(), 5nat,
    {
        let ghost s = self.lexer.text();
        let ghost p = self.lexer.pos() as int;
        proof {
            lemma_space_end(s, p);
            lemma_space_end(s, space_end(s, p));
            reveal_strlit("-");
            assert("-"@ =~= seq!['-']);
        }
        if self.lexer.matsch("-") {
            let unary = match self.parse_unary() {
                Ok(n) => n,
                Err(e) => {
                    return Err(e);
                },
            };
            let inputs = vec![unary];
            assert(inputs@ =~= seq![unary]);
            let ghost operand = *self;
            let ghost ins = inputs@;
            let made = self.add_node_unrefined(inputs, NodeKind::Minus);
            proof {
                if tidy(old(self).graph@) && made is Ok && refined_from(
                    operand.graph@,
                    ins,
                    NodeKind::Minus,
                    TypV::Bot,
                ).is_constant() {
                    lemma_added_typ(&operand, self, ins, NodeKind::Minus, made);
                }
                if tidy(old(self).graph@) {
                    assert(ins[0] == unary);
                    assert(all_live(operand.graph@, ins));
                    lemma_added_cost(&operand, self, ins, NodeKind::Minus, made);
                    if made is Ok && self.do_optimize && scope_folded(operand.graph@) {
                        lemma_added_folded(&operand, self, ins, NodeKind::Minus, made);
                        lemma_folded_scope_kept(operand.graph@, self.graph@);
                    }
                }
                assert(unary_typ(s, p, names(old(self).graph@), types_in_scope(old(self).graph@))
                    == folded(
                    NodeKind::Minus,
                    unary_typ(
                        s,
                        space_end(s, p) + 1,
                        names(old(self).graph@),
                        types_in_scope(old(self).graph@),
                    ),
                    Some(TypV::Bot),
                ));
            }
            made
        } else {
            assert(primary(s, space_end(s, p), names(self.graph@)) == primary(
                s,
                p,
                names(self.graph@),
            ));
            assert(primary_typ(
                s,
                space_end(s, p),
                names(self.graph@),
                types_in_scope(self.graph@),
            ) == primary_typ(s, p, names(self.graph@), types_in_scope(self.graph@)));
            assert(primary_folds(
                s,
                space_end(s, p),
                names(self.graph@),
                types_in_scope(self.graph@),
            ) == primary_folds(s, p, names(self.graph@), types_in_scope(self.graph@)));
            self.parse_primary()
        }
    }

    /// Parses `integerLiteral | identifier | '(' expression ')'`.
    pub fn parse_primary(&mut self) -> (r: Result<usize, SoNError>)
        ensures
            final(self).proceeds_from(old(self)),
            final(self).grows_from(old(self)),
            r is Ok ==> scope_kept(old(self).graph@, final(self).graph@),
            pins_held(old(self).graph@, final(self).graph@),
            final(self).linked_from(old(self)),
            final(self).owed(
                old(self),
                r,
                primary_folds(
                    old(self).lexer.text(),
                    old(self).lexer.pos() as int,
                    names(old(self).graph@),
                    types_in_scope(old(self).graph@),
                ),
                0,
            ),
            final(self).follows(
                old(self),
                r,
                primary(
                    old(self).lexer.text(),
                    old(self).lexer.pos() as int,
                    names(old(self).graph@),
                ),
            ),
            ({
                let s = old(self).lexer.text();
                let q = old(self).lexer.after_space();
                r is Ok && !(0 <= q < s.len() && crate::services::lexer::is_digit(s[q]))
                    && !starts_at(
                    s,
                    q,
                    seq!['('],
                ) ==> Some(r->Ok_0) == crate::services::scope::lookup(
                    scope_stack(old(self).graph@)->0,
                    identifier(s, q),
                    scope_stack(old(self).graph@)->0.len(),
                ) && final(self).graph == old(self).graph
            }),
            final(self).typed(
                old(self),
                r,
                primary_typ(
                    old(self).lexer.text(),
                    old(self).lexer.pos() as int,
                    names(old(self).graph@),
                    types_in_scope(old(self).graph@),
                ),
            ),
            final(self).settles(old(self), r, primary_folds(
                old(self).lexer.text(),
                old(self).lexer.pos() as int,
                names(old(self).graph@),
                types_in_scope(old(self).graph@),
            )),
            match r {
                Ok(nid) => final(self).consumed_since(old(self)) && live(final(self).graph@, nid),
                Err(e) => !(e is DebugPropagateControlFlowUpward),
            },
        decreases old(self).lexer.remaining(), 4nat,
    {
        let ghost s = self.lexer.text();
        let ghost p = self.lexer.pos() as int;
        let ghost q = space_end(s, p);
        let ghost declared_names = names(self.graph@);
        proof {
            lemma_space_end(s, p);
            lemma_space_end(s, q);
            reveal_strlit("(");
            reveal_strlit(")");
            assert("("@ =~= seq!['(']);
            assert(")"@ =~= seq![')']);
        }
        self.lexer.skip_whitespace();
        if self.lexer.peek_is_number() {
            return self.parse_number_literal();
        }
        if self.lexer.matsch("(") {
            let node = match self.parse_expression() {
                Ok(n) => n,
                Err(e) => {
                    return Err(e);
                },
            };
            proof {
                lemma_space_end(s, self.lexer.pos() as int);
            }
            match self.require(")") {
                Ok(_) => {},
                Err(e) => {
                    return Err(e);
                },
            }
            return Ok(node);
        }
        let name = match self.require_and_get_identifier() {
            Ok(n) => n,
            Err(e) => {
                return Err(e);
            },
        };
        proof {
            if scope_stack(self.graph@) is Some {
                lemma_found_declared(self.graph@, name@);
                if tidy(self.graph@) && declared(names(self.graph@), name@) {
                    lemma_found_live(self.graph@, name@);
                    crate::services::scope::lemma_lookup_bound(
                        scope_stack(self.graph@)->0,
                        name@,
                        scope_stack(self.graph@)->0.len(),
                    );
                }
            }
        }
        match self.get_var(name.as_str()) {
            Some(nid) => {
                if self.graph.node_exists(nid) {
                    Ok(nid)
                } else {
                    Err(SoNError::NodeIdNotExisting)
                }
            },
            None => Err(SoNError::VariableUndefined { variable: name }),
        }
    }

    /// Parses an integer literal into a constant node.
    pub fn parse_number_literal(&mut self) -> (r: Result<usize, SoNError>)
        ensures
            final(self).proceeds_from(old(self)),
            final(self).grows_from(old(self)),
            r is Ok ==> scope_kept(old(self).graph@, final(self).graph@),
            pins_held(old(self).graph@, final(self).graph@),
            final(self).linked_from(old(self)),
            final(self).owed(
                old(self),
                r,
                true,
                0,
            ),
            final(self).follows(
                old(self),
                r,
                number(
                    old(self).lexer.text(),
                    old(self).lexer.pos() as int,
                    names(old(self).graph@),
                ),
            ),
            !old(self).lexer.at_end() && crate::services::lexer::is_digit(
                old(self).lexer.text()[old(self).lexer.pos() as int],
            ) ==> final(self).consumed_since(old(self)),
            r is Ok ==> final(self).built(old(self), r->Ok_0, NodeKind::Constant, 0),
            final(self).typed(
                old(self),
                r,
                Some(
                    TypV::Int {
                        constant: crate::services::lexer::digits_value(
                            crate::services::lexer::slice(
                                old(self).lexer.text(),
                                old(self).lexer.pos() as int,
                                run_end(
                                    old(self).lexer.text(),
                                    old(self).lexer.pos() as int,
                                    CharClass::Digit,
                                ),
                            ),
                        ) as i64,
                    },
                ),
            ),
            final(self).settles(old(self), r, true),
            match r {
                Ok(nid) => live(final(self).graph@, nid),
                Err(e) => !(e is DebugPropagateControlFlowUpward),
            },
    {
        proof {
            crate::services::lexer::lemma_run_end_bounds(
                self.lexer.text(),
                self.lexer.pos() as int,
                CharClass::Digit,
            );
            crate::services::lexer::lemma_run_end_bounds(
                self.lexer.text(),
                self.lexer.pos() + 1,
                CharClass::Digit,
            );
        }
        let value = match self.lexer.parse_number() {
            Ok(v) => v,
            Err(e) => {
                return Err(e);
            },
        };
        proof {
            lemma_constant_stays(self.graph@, TypV::Int { constant: value });
        }
        let r = self.add_node(Vec::new(), NodeKind::Constant, Typ::Int { constant: value });
        proof {
            if tidy(old(self).graph@) && r is Ok && scope_folded(old(self).graph@) {
                lemma_folded_scope_kept(old(self).graph@, self.graph@);
            }
        }
        r
    }
}

} // verus!
