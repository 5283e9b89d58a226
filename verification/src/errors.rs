//! The closed error taxonomy of the evaluator. Each variant carries the
//! offending name or values as fields rather than pre-formatted text.
use vstd::prelude::*;

use crate::object::{objs_view, Object, Val};

verus! {

/// An evaluation failure. The first failure aborts the current top-level
/// evaluation and is returned whole to the caller.
#[derive(Debug, PartialEq)]
pub enum Error {
    /// Surfaced unchanged from the lexer or parser.
    ParseError(String),
    /// A name was referenced and is bound nowhere in the frame chain.
    UnboundSymbol(String),
    /// A symbol in call head position has no binding.
    UnboundFunction(String),
    /// A symbol in call head position resolves to a non-lambda.
    NotCallable(String),
    /// An operand-count or parameter-count mismatch; carries the form's name.
    ArityError(String),
    /// An operand of the wrong kind; carries the form's name and the values.
    TypeError(String, Vec<Object>),
    /// A structurally invalid form; carries the form's name.
    MalformedForm(String),
    /// Integer division or remainder by zero.
    DivisionByZero,
    /// The nesting budget of the evaluator was exhausted.
    DepthExceeded,
}

/// Mathematical mirror of `Error`.
pub enum ErrV {
    ParseError(Seq<char>),
    UnboundSymbol(Seq<char>),
    UnboundFunction(Seq<char>),
    NotCallable(Seq<char>),
    ArityError(Seq<char>),
    TypeError(Seq<char>, Seq<Val>),
    MalformedForm(Seq<char>),
    DivisionByZero,
    DepthExceeded,
}

pub open spec fn err_view(e: Error) -> ErrV {
    match e {
        Error::ParseError(s) => ErrV::ParseError(s@),
        Error::UnboundSymbol(s) => ErrV::UnboundSymbol(s@),
        Error::UnboundFunction(s) => ErrV::UnboundFunction(s@),
        Error::NotCallable(s) => ErrV::NotCallable(s@),
        Error::ArityError(s) => ErrV::ArityError(s@),
        Error::TypeError(s, vs) => ErrV::TypeError(s@, objs_view(vs@)),
        Error::MalformedForm(s) => ErrV::MalformedForm(s@),
        Error::DivisionByZero => ErrV::DivisionByZero,
        Error::DepthExceeded => ErrV::DepthExceeded,
    }
}

impl View for Error {
    type V = ErrV;

    open spec fn view(&self) -> ErrV {
        err_view(*self)
    }
}

/// View of an evaluation outcome.
pub open spec fn res_view(r: Result<Object, Error>) -> Result<Val, ErrV> {
    match r {
        Result::Ok(o) => Result::Ok(o@),
        Result::Err(e) => Result::Err(e@),
    }
}

} // verus!
