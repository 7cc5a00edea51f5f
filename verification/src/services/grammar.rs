use crate::services::lexer::{
    CharClass, digits_value, is_digit, is_id_start_char, run_end, slice, starts_at, token_end,
    token_text, word_at,
};
use vstd::prelude::*;

verus! {

/// What is wrong with a program.
pub enum Failure {
    /// `but_got` stands where `expected` had to stand.
    Syntax { expected: Seq<char>, but_got: Seq<char> },
    /// An integer literal of more than one digit starts with `0`.
    LeadingZero,
    /// A declaration names a variable that its scope level holds already.
    Redefinition { variable: Seq<char> },
    /// A variable is used that no level in scope declares, or assigned that
    /// the innermost level does not declare.
    Undefined { variable: Seq<char> },
}

/// What reading a part of a program comes to.
pub enum Outcome {
    /// The part is well formed and ends before `end`; behind it the scope
    /// levels declare `names`.
    Accept { end: int, names: Seq<Set<Seq<char>>> },
    /// In place of a statement stands the debug directive, which ends before `end`.
    Directive { end: int },
    /// The part is not well formed; the reader gives up at `end`.
    Reject { failure: Failure, end: int },
}

/// Whether `name` is a word that the language keeps for itself.
pub open spec fn is_keyword(name: Seq<char>) -> bool {
    name == "int"@ || name == "return"@
}

/// The position behind the white space at `p`.
pub open spec fn space_end(s: Seq<char>, p: int) -> int {
    run_end(s, p, CharClass::Space)
}

/// Some scope level declares `name`.
pub open spec fn declared(names: Seq<Set<Seq<char>>>, name: Seq<char>) -> bool {
    exists|l: int| 0 <= l < names.len() && #[trigger] names[l].contains(name)
}

/// The sign `sign`, after white space.
pub open spec fn sign(
    s: Seq<char>,
    p: int,
    sign: Seq<char>,
    names: Seq<Set<Seq<char>>>,
) -> Outcome {
    let q = space_end(s, p);
    if starts_at(s, q, sign) {
        Outcome::Accept { end: q + sign.len(), names }
    } else {
        Outcome::Reject {
            failure: Failure::Syntax { expected: sign, but_got: token_text(s, q) },
            end: token_end(s, q),
        }
    }
}

/// An identifier stands at `q`: a letter or `_`, with the letters, digits and
/// `_` that follow, which together are no keyword.
pub open spec fn identifier_at(s: Seq<char>, q: int) -> bool {
    0 <= q < s.len() && is_id_start_char(s[q]) && !is_keyword(
        s.subrange(q, run_end(s, q, CharClass::IdLetter)),
    )
}

/// The identifier at `q`.
pub open spec fn identifier(s: Seq<char>, q: int) -> Seq<char> {
    s.subrange(q, run_end(s, q, CharClass::IdLetter))
}

/// What is reported where an identifier had to stand at `q`: the token there,
/// or the token behind the keyword there.
pub open spec fn no_identifier(s: Seq<char>, q: int) -> Outcome {
    let at = if 0 <= q < s.len() && is_id_start_char(s[q]) {
        run_end(s, q, CharClass::IdLetter)
    } else {
        q
    };
    Outcome::Reject {
        failure: Failure::Syntax { expected: "Identifier"@, but_got: token_text(s, at) },
        end: token_end(s, at),
    }
}

/// `integerLiteral`: a run of digits at `q`, without a leading zero, that
/// denotes a number up to the largest signed 64-bit integer.
pub open spec fn number(s: Seq<char>, q: int, names: Seq<Set<Seq<char>>>) -> Outcome {
    let end = run_end(s, q, CharClass::Digit);
    let digits = slice(s, q, end);
    if digits.len() > 1 && digits[0] == '0' {
        Outcome::Reject { failure: Failure::LeadingZero, end }
    } else if digits.len() == 0 || digits_value(digits) > i64::MAX {
        Outcome::Reject {
            failure: Failure::Syntax { expected: "Integer literal"@, but_got: digits },
            end,
        }
    } else {
        Outcome::Accept { end, names }
    }
}

/// `primaryExpr : integerLiteral | identifier | '(' expression ')'`, where
/// the identifier is declared.
pub open spec fn primary(s: Seq<char>, p: int, names: Seq<Set<Seq<char>>>) -> Outcome
    decreases s.len() - p, 0nat,
{
    let q = space_end(s, p);
    if 0 <= q < s.len() && is_digit(s[q]) {
        number(s, q, names)
    } else if starts_at(s, q, seq!['(']) && q >= p {
        match expression(s, q + 1, names) {
            Outcome::Accept { end, names } => sign(s, end, seq![')'], names),
            other => other,
        }
    } else if identifier_at(s, q) {
        if declared(names, identifier(s, q)) {
            Outcome::Accept { end: run_end(s, q, CharClass::IdLetter), names }
        } else {
            Outcome::Reject {
                failure: Failure::Undefined { variable: identifier(s, q) },
                end: run_end(s, q, CharClass::IdLetter),
            }
        }
    } else {
        no_identifier(s, q)
    }
}

/// `unaryExpr : '-' unaryExpr | primaryExpr`
pub open spec fn unary(s: Seq<char>, p: int, names: Seq<Set<Seq<char>>>) -> Outcome
    decreases s.len() - p, 1nat,
{
    let q = space_end(s, p);
    if starts_at(s, q, seq!['-']) && q >= p {
        unary(s, q + 1, names)
    } else {
        primary(s, p, names)
    }
}

/// `multiplicativeExpr : unaryExpr (('*' | '/') multiplicativeExpr)?`
pub open spec fn multiplication(s: Seq<char>, p: int, names: Seq<Set<Seq<char>>>) -> Outcome
    decreases s.len() - p, 2nat,
{
    match unary(s, p, names) {
        Outcome::Accept { end, names } => {
            let q = space_end(s, end);
            if (starts_at(s, q, seq!['*']) || starts_at(s, q, seq!['/'])) && q >= p {
                multiplication(s, q + 1, names)
            } else {
                Outcome::Accept { end: q, names }
            }
        },
        other => other,
    }
}

/// `additiveExpr : multiplicativeExpr (('+' | '-') additiveExpr)?`
pub open spec fn addition(s: Seq<char>, p: int, names: Seq<Set<Seq<char>>>) -> Outcome
    decreases s.len() - p, 3nat,
{
    match multiplication(s, p, names) {
        Outcome::Accept { end, names } => {
            let q = space_end(s, end);
            if (starts_at(s, q, seq!['+']) || starts_at(s, q, seq!['-'])) && q >= p {
                addition(s, q + 1, names)
            } else {
                Outcome::Accept { end: q, names }
            }
        },
        other => other,
    }
}

/// `expression : additiveExpr`
pub open spec fn expression(s: Seq<char>, p: int, names: Seq<Set<Seq<char>>>) -> Outcome
    decreases s.len() - p, 4nat,
{
    addition(s, p, names)
}

/// `returnStatement : 'return' expression ';'`, where the control node is in scope.
pub open spec fn return_statement(s: Seq<char>, p: int, names: Seq<Set<Seq<char>>>) -> Outcome {
    let q = space_end(s, p);
    if !word_at(s, q, "return"@) {
        Outcome::Reject {
            failure: Failure::Syntax { expected: "return"@, but_got: token_text(s, q) },
            end: token_end(s, q),
        }
    } else {
        match expression(s, q + "return"@.len(), names) {
            Outcome::Accept { end, names } => match sign(s, end, seq![';'], names) {
                Outcome::Accept { end, names } => if declared(names, "$ctrl"@) {
                    Outcome::Accept { end, names }
                } else {
                    Outcome::Reject { failure: Failure::Undefined { variable: "$ctrl"@ }, end }
                },
                other => other,
            },
            other => other,
        }
    }
}

/// `identifier '=' expression ';'` from the identifier on, which starts after
/// white space at `p`; accepted with the end of the statement.
pub open spec fn binding(s: Seq<char>, p: int, names: Seq<Set<Seq<char>>>) -> Outcome {
    let q = space_end(s, p);
    if !identifier_at(s, q) {
        no_identifier(s, q)
    } else {
        match sign(s, run_end(s, q, CharClass::IdLetter), seq!['='], names) {
            Outcome::Accept { end, names } => match expression(s, end, names) {
                Outcome::Accept { end, names } => sign(s, end, seq![';'], names),
                other => other,
            },
            other => other,
        }
    }
}

/// `declStatement : 'int' identifier '=' expression ';'`, where the innermost
/// scope level does not declare the identifier yet; afterwards it does.
pub open spec fn declaration(s: Seq<char>, p: int, names: Seq<Set<Seq<char>>>) -> Outcome {
    let q = space_end(s, p);
    if !word_at(s, q, "int"@) {
        Outcome::Reject {
            failure: Failure::Syntax { expected: "int"@, but_got: token_text(s, q) },
            end: token_end(s, q),
        }
    } else {
        let at = space_end(s, q + "int"@.len());
        match binding(s, at, names) {
            Outcome::Accept { end, names } => if names.len() > 0 && names.last().contains(
                identifier(s, at),
            ) {
                Outcome::Reject {
                    failure: Failure::Redefinition { variable: identifier(s, at) },
                    end,
                }
            } else {
                Outcome::Accept {
                    end,
                    names: names.update(names.len() - 1, names.last().insert(identifier(s, at))),
                }
            },
            other => other,
        }
    }
}

/// `exprStatement : identifier '=' expression ';'`, where the innermost scope
/// level declares the identifier.
pub open spec fn assignment(s: Seq<char>, p: int, names: Seq<Set<Seq<char>>>) -> Outcome {
    let at = space_end(s, p);
    match binding(s, at, names) {
        Outcome::Accept { end, names } => if names.len() > 0 && names.last().contains(
            identifier(s, at),
        ) {
            Outcome::Accept { end, names }
        } else {
            Outcome::Reject { failure: Failure::Undefined { variable: identifier(s, at) }, end }
        },
        other => other,
    }
}

/// `statement : returnStatement | declStatement | block | exprStatement`, or
/// the debug directive `#showGraph;` in the place of a statement.
pub open spec fn statement(s: Seq<char>, p: int, names: Seq<Set<Seq<char>>>) -> Outcome
    decreases s.len() - p, 2nat, 0nat,
{
    let q = space_end(s, p);
    if starts_at(s, q, "#showGraph;"@) {
        Outcome::Directive { end: q + "#showGraph;"@.len() }
    } else if word_at(s, q, "return"@) {
        return_statement(s, p, names)
    } else if word_at(s, q, "int"@) {
        declaration(s, p, names)
    } else if starts_at(s, q, seq!['{']) && q >= p {
        block(s, q, names)
    } else {
        assignment(s, p, names)
    }
}

/// The statements of a block from `p` on, up to the closing brace or the end
/// of the text; `any` tells whether a statement was read already.  A block
/// holds at least one statement; debug directives may stand between them.
pub open spec fn statements(s: Seq<char>, p: int, names: Seq<Set<Seq<char>>>, any: bool) -> Outcome
    decreases s.len() - p, 3nat, 0nat,
{
    if any && (p >= s.len() || starts_at(s, space_end(s, p), seq!['}'])) {
        Outcome::Accept { end: p, names }
    } else {
        match statement(s, p, names) {
            Outcome::Accept { end, names } => if p < end <= s.len() {
                statements(s, end, names, true)
            } else {
                Outcome::Accept { end, names }
            },
            Outcome::Directive { end } => if p < end <= s.len() {
                statements(s, end, names, any)
            } else {
                Outcome::Directive { end }
            },
            other => other,
        }
    }
}

/// `block : '{' statement+ '}'`, in a scope level of its own.
pub open spec fn block(s: Seq<char>, p: int, names: Seq<Set<Seq<char>>>) -> Outcome
    decreases s.len() - p, 1nat, 0nat,
{
    let q = space_end(s, p);
    if !starts_at(s, q, seq!['{']) || q < p {
        sign(s, p, seq!['{'], names)
    } else {
        match statements(s, q + 1, names.push(Set::empty()), false) {
            Outcome::Accept { end, names } => match sign(s, end, seq!['}'], names) {
                Outcome::Accept { end, names } => Outcome::Accept { end, names: names.drop_last() },
                other => other,
            },
            other => other,
        }
    }
}

/// `program : block`, read to the end of the text, with the control node and
/// the argument declared in a scope level around it.
pub open spec fn program(s: Seq<char>, p: int, names: Seq<Set<Seq<char>>>) -> Outcome {
    match block(s, p, names.push(set!["$ctrl"@, "arg"@])) {
        Outcome::Accept { end, names } => if end >= s.len() {
            Outcome::Accept { end, names: names.drop_last() }
        } else {
            Outcome::Reject {
                failure: Failure::Syntax { expected: "End of file"@, but_got: token_text(s, end) },
                end: token_end(s, end),
            }
        },
        other => other,
    }
}

/// Skipping white space twice is skipping it once.
pub proof fn lemma_space_end(s: Seq<char>, p: int)
    ensures
        p <= space_end(s, p),
        space_end(s, space_end(s, p)) == space_end(s, p),
        0 <= p <= s.len() ==> space_end(s, p) <= s.len(),
{
    crate::services::lexer::lemma_run_end_bounds(s, p, CharClass::Space);
}

} // verus!
