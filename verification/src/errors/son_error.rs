use crate::services::lexer::line_col;
use crate::services::parser::Parser;
use vstd::prelude::*;

verus! {

/// Everything that can go wrong while a program is turned into a graph.
#[derive(Debug)]
pub enum SoNError {
    /// A slot id names an empty cell or lies outside the arena.
    NodeIdNotExisting,
    /// An integer literal with more than one digit starts with `0`.
    NumberCannotStartWith0,
    /// The source holds `but_got` where `expected` had to stand.
    SyntaxExpected { expected: String, but_got: String },
    /// A refinement tried to move a type down the lattice.
    TypTransitionNotAllowed,
    /// A declaration names a variable that the same scope level already holds.
    VariableRedefinition { variable: String },
    /// A variable is read or assigned that no visible declaration introduces.
    VariableUndefined { variable: String },
    /// Not a failure: a debug directive was consumed in place of a statement.
    DebugPropagateControlFlowUpward,
}

impl Clone for SoNError {
    fn clone(&self) -> (r: SoNError)
        ensures
            r == *self,
    {
        match self {
            SoNError::NodeIdNotExisting => SoNError::NodeIdNotExisting,
            SoNError::NumberCannotStartWith0 => SoNError::NumberCannotStartWith0,
            SoNError::SyntaxExpected { expected, but_got } => SoNError::SyntaxExpected {
                expected: expected.clone(),
                but_got: but_got.clone(),
            },
            SoNError::TypTransitionNotAllowed => SoNError::TypTransitionNotAllowed,
            SoNError::VariableRedefinition { variable } => SoNError::VariableRedefinition {
                variable: variable.clone(),
            },
            SoNError::VariableUndefined { variable } => SoNError::VariableUndefined {
                variable: variable.clone(),
            },
            SoNError::DebugPropagateControlFlowUpward => SoNError::DebugPropagateControlFlowUpward,
        }
    }
}

impl SoNError {
    /// The error together with the line and the column at which the lexer of
    /// `parser` stands, or with 0 and 0 where its cursor lies outside the text.
    pub fn attach_context(&self, parser: &Parser) -> (r: ErrorWithContext)
        ensures
            r.error == *self,
            match line_col(parser.lexer.text(), parser.lexer.pos() as int) {
                Some((l, c)) => r.line == l && r.col == c,
                None => r.line == 0 && r.col == 0,
            },
    {
        let (line, col) = match parser.lexer.dbg_position() {
            Some(p) => p,
            None => (0, 0),
        };
        ErrorWithContext { error: self.clone(), line, col }
    }
}

/// An error together with the place in the source at which it surfaced.
#[derive(Debug)]
pub struct ErrorWithContext {
    pub error: SoNError,
    pub line: usize,
    pub col: usize,
}

} // verus!
