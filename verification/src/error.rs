//! The error of the whole pipeline: that of the first stage that failed.
use vstd::prelude::*;
use crate::interpreter::{RuntimeError, runtime_error_text};
use crate::lexer::{LexError, SLexError, lex_error_text};
use crate::parser::{ParseError, SParseError, parse_error_text};
use crate::sema::{SemaError, SemaErrorView, sema_error_text};

verus! {

/// The error of one of the stages, so that running a program has a single
/// error type.
#[derive(Debug, Clone, PartialEq, Eq)]
pub enum Error {
    /// A lexical error, e.g. an unexpected character.
    Lex(LexError),
    /// A syntax error, e.g. a missing semicolon.
    Parse(ParseError),
    /// A type error found before execution, e.g. adding a boolean to a number.
    Sema(SemaError),
    /// An error while executing a checked program, e.g. division by zero.
    Runtime(RuntimeError),
}

/// The view of an [`Error`].
pub enum ErrorView {
    Lex(SLexError),
    Parse(SParseError),
    Sema(SemaErrorView),
    Runtime(RuntimeError),
}

impl View for Error {
    type V = ErrorView;

    open spec fn view(&self) -> ErrorView {
        match self {
            Error::Lex(e) => ErrorView::Lex(e@),
            Error::Parse(e) => ErrorView::Parse(e@),
            Error::Sema(e) => ErrorView::Sema(e@),
            Error::Runtime(e) => ErrorView::Runtime(*e),
        }
    }
}

impl From<LexError> for Error {
    /// Wraps a [`LexError`] as [`Error::Lex`].
    fn from(e: LexError) -> (r: Self)
        ensures
            r == Error::Lex(e),
    {
        Error::Lex(e)
    }
}

impl vstd::std_specs::convert::FromSpecImpl<LexError> for Error {
    open spec fn obeys_from_spec() -> bool {
        true
    }

    open spec fn from_spec(e: LexError) -> Error {
        Error::Lex(e)
    }
}

impl From<ParseError> for Error {
    /// Wraps a [`ParseError`] as [`Error::Parse`].
    fn from(e: ParseError) -> (r: Self)
        ensures
            r == Error::Parse(e),
    {
        Error::Parse(e)
    }
}

impl vstd::std_specs::convert::FromSpecImpl<ParseError> for Error {
    open spec fn obeys_from_spec() -> bool {
        true
    }

    open spec fn from_spec(e: ParseError) -> Error {
        Error::Parse(e)
    }
}

impl From<SemaError> for Error {
    /// Wraps a [`SemaError`] as [`Error::Sema`].
    fn from(e: SemaError) -> (r: Self)
        ensures
            r == Error::Sema(e),
    {
        Error::Sema(e)
    }
}

impl vstd::std_specs::convert::FromSpecImpl<SemaError> for Error {
    open spec fn obeys_from_spec() -> bool {
        true
    }

    open spec fn from_spec(e: SemaError) -> Error {
        Error::Sema(e)
    }
}

impl From<RuntimeError> for Error {
    /// Wraps a [`RuntimeError`] as [`Error::Runtime`].
    fn from(e: RuntimeError) -> (r: Self)
        ensures
            r == Error::Runtime(e),
    {
        Error::Runtime(e)
    }
}

impl vstd::std_specs::convert::FromSpecImpl<RuntimeError> for Error {
    open spec fn obeys_from_spec() -> bool {
        true
    }

    open spec fn from_spec(e: RuntimeError) -> Error {
        Error::Runtime(e)
    }
}

/// The message of an error: that of the stage's error it holds.
pub open spec fn error_text(e: ErrorView) -> Seq<char> {
    match e {
        ErrorView::Lex(e) => lex_error_text(e),
        ErrorView::Parse(e) => parse_error_text(e),
        ErrorView::Sema(e) => sema_error_text(e),
        ErrorView::Runtime(e) => runtime_error_text(e),
    }
}

impl Error {
    /// The error's message, e.g. `2:9: unexpected character '@'`.
    pub fn to_string(&self) -> (s: String)
        ensures
            s@ == error_text(self@),
    {
        match self {
            Error::Lex(e) => e.to_string(),
            Error::Parse(e) => e.to_string(),
            Error::Sema(e) => e.to_string(),
            Error::Runtime(e) => e.to_string(),
        }
    }
}

} // verus!
