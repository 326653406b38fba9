//! Diagnostics: the structured errors that lexing and parsing report, and a
//! sink that collects them for a caller.
use crate::token::TokenType;
use vstd::prelude::*;

verus! {

/// What went wrong.
#[derive(Debug, Clone, Copy, PartialEq, Eq, Structural)]
pub enum ErrorKind {
    /// A character that starts no token.
    UnexpectedCharacter(char),
    /// A string literal still open at the end of the source.
    UnterminatedString,
    /// A grammar rule needed one kind of token and saw another.
    UnexpectedToken { expected: TokenType, found: TokenType },
    /// An expression was needed and the token cannot start one.
    ExpectedExpression { found: TokenType },
    /// The left side of `=` is not a variable.
    InvalidAssignmentTarget,
}

/// A diagnostic: its kind and the 1-based source line it was found on.
#[derive(Debug, Clone, Copy, PartialEq, Eq, Structural)]
pub struct Error {
    pub kind: ErrorKind,
    pub position: usize,
}

impl Error {
    pub fn new(kind: ErrorKind, position: usize) -> (r: Self)
        ensures
            r == (Error { kind, position }),
    {
        Error { kind, position }
    }
}

/// Collects the diagnostics of one run for a named source file.
pub struct Handler {
    pub source_file: String,
    pub errors: Vec<Error>,
}

impl Handler {
    pub fn new(source_file: String) -> (r: Self)
        ensures
            r.source_file == source_file,
            r.errors@ == Seq::<Error>::empty(),
    {
        Handler { source_file, errors: Vec::new() }
    }

    /// Records one diagnostic.
    pub fn error(&mut self, error: Error)
        ensures
            final(self).source_file == old(self).source_file,
            final(self).errors@ == old(self).errors@.push(error),
    {
        self.errors.push(error);
    }

    /// Records every diagnostic of `errors`, in order.
    pub fn report_all(&mut self, errors: &Vec<Error>)
        ensures
            final(self).source_file == old(self).source_file,
            final(self).errors@ == old(self).errors@ + errors@,
    {
        let mut i: usize = 0;
        while i < errors.len()
            invariant
                i <= errors@.len(),
                self.source_file == old(self).source_file,
                self.errors@ == old(self).errors@ + errors@.subrange(0, i as int),
            decreases errors@.len() - i,
        {
            self.errors.push(errors[i]);
            i = i + 1;
            assert(errors@.subrange(0, i as int) == errors@.subrange(0, i - 1).push(errors@[i - 1]));
        }
        assert(errors@.subrange(0, errors@.len() as int) == errors@);
    }

    pub fn set_source_file(&mut self, path: String)
        ensures
            final(self).source_file == path,
            final(self).errors@ == old(self).errors@,
    {
        self.source_file = path;
    }

    /// Whether any diagnostic has been recorded.
    pub fn errors_occured(&self) -> (r: bool)
        ensures
            r == (self.errors@.len() > 0),
    {
        self.errors.len() > 0
    }

    pub fn error_count(&self) -> (r: usize)
        ensures
            r == self.errors@.len(),
    {
        self.errors.len()
    }
}

} // verus!
