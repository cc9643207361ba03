//! The single error type of the interpreter.

use vstd::prelude::*;

verus! {

/// Every error that evaluation, parsing or a host interaction can produce.
#[derive(Debug, PartialEq, Eq)]
pub enum LispError {
    /// Input/output with the host failed (a file could not be read, no line was available).
    IOError,
    /// The given text is not a well-formed expression.
    ParseError(String),
    /// A symbol is bound in no enclosing scope; carries the symbol's name.
    Undefined(String),
    /// A value did not have the shape that a special form or builtin required.
    TypeError,
    /// A callable or special form was given a number of arguments it does not accept.
    BadArity,
    /// Integer division by zero.
    DivisionByZero,
    /// An integer operation left the range of 64-bit integers.
    Overflow,
    /// The nesting of evaluations exceeded the depth budget.
    DepthExceeded,
}

/// The model of a [`LispError`]: the same variants, with character sequences
/// in place of strings.
pub enum Fault {
    IOError,
    ParseError(Seq<char>),
    Undefined(Seq<char>),
    TypeError,
    BadArity,
    DivisionByZero,
    Overflow,
    DepthExceeded,
}

impl View for LispError {
    type V = Fault;

    open spec fn view(&self) -> Fault {
        match self {
            LispError::IOError => Fault::IOError,
            LispError::ParseError(s) => Fault::ParseError(s@),
            LispError::Undefined(s) => Fault::Undefined(s@),
            LispError::TypeError => Fault::TypeError,
            LispError::BadArity => Fault::BadArity,
            LispError::DivisionByZero => Fault::DivisionByZero,
            LispError::Overflow => Fault::Overflow,
            LispError::DepthExceeded => Fault::DepthExceeded,
        }
    }
}

impl LispError {
    /// A human-readable description of the error.
    pub fn message(&self) -> (r: String)
        ensures
            r@ == self.message_spec(),
    {
        match self {
            LispError::IOError => String::from_str("ERROR: IO error."),
            LispError::ParseError(expr) => {
                let mut s = String::from_str("ERROR: Could not parse expression: ");
                s.append(expr.as_str());
                s
            },
            LispError::Undefined(ident) => {
                let mut s = String::from_str("ERROR: Undefined identifier: ");
                s.append(ident.as_str());
                s
            },
            LispError::TypeError => String::from_str("ERROR: Type error."),
            LispError::BadArity => String::from_str("ERROR: Wrong number of arguments."),
            LispError::DivisionByZero => String::from_str("ERROR: Division by zero."),
            LispError::Overflow => String::from_str("ERROR: Integer overflow."),
            LispError::DepthExceeded => String::from_str("ERROR: Maximum evaluation depth exceeded."),
        }
    }

    /// The text that [`LispError::message`] returns.
    pub open spec fn message_spec(&self) -> Seq<char> {
        match self {
            LispError::IOError => "ERROR: IO error."@,
            LispError::ParseError(expr) => "ERROR: Could not parse expression: "@ + expr@,
            LispError::Undefined(ident) => "ERROR: Undefined identifier: "@ + ident@,
            LispError::TypeError => "ERROR: Type error."@,
            LispError::BadArity => "ERROR: Wrong number of arguments."@,
            LispError::DivisionByZero => "ERROR: Division by zero."@,
            LispError::Overflow => "ERROR: Integer overflow."@,
            LispError::DepthExceeded => "ERROR: Maximum evaluation depth exceeded."@,
        }
    }
}

} // verus!
