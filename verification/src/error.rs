//! The error taxonomy of the runtime, surfaced as tagged results.

use vstd::prelude::*;

verus! {

/// A runtime, compile-time or definition-time failure.
///
/// Every operation of the library returns a `Result` over this type; errors
/// are never used for normal control flow. `AssertionFailed` is the one
/// "fatal" kind: it reports a violated `assert(..)` in the evaluated program,
/// and a host is expected to abort rather than continue.
#[derive(Clone, Debug, PartialEq, Eq)]
pub enum Error {
    /// The source text could not be turned into an expression.
    ParseError(String),
    /// An expression shape the compiler does not support (for example an
    /// assignment below the top level).
    CompileError(String),
    /// A bare reference to a name with no stored read entry.
    VariableUnknown(String),
    /// A call to a name that has no function table.
    FunctionUnknown(String),
    /// The name is known but no stored overload accepts the arguments;
    /// carries the name and the argument count of the call.
    NoMatchingOverload(String, usize),
    /// A built-in was handed the wrong number of arguments; carries the
    /// name, the expected count and the given count.
    ArityMismatch(String, usize, usize),
    /// Division (or remainder) with a zero divisor.
    DivisionByZero,
    /// An operand of the wrong value variant was handed to an operator.
    CoercionError,
    /// The left side of an assignment is neither a reference nor a call
    /// pattern made of literals and binders.
    AssignmentTargetInvalid,
    /// Storing this definition would make the named variable reachable from
    /// its own body through other variable bindings.
    CyclicAssignment(String),
    /// The call stack reached its fixed depth bound.
    StackDepthExceeded,
    /// An exact rational result does not fit the machine representation.
    NumericOverflow,
    /// The exact result of a power or logarithm is not a rational number
    /// that the library can represent.
    Inexact,
    /// A compiled sequence was executed whose stack discipline is broken;
    /// the library's own compiler never produces such a sequence.
    InvalidBytecode,
    /// A violated `assert(..)` in the evaluated program: fatal by contract.
    AssertionFailed,
}

/// The ghost mirror of `Error`, with mathematical string contents.
pub enum ErrM {
    ParseError(Seq<char>),
    CompileError(Seq<char>),
    VariableUnknown(Seq<char>),
    FunctionUnknown(Seq<char>),
    NoMatchingOverload(Seq<char>, nat),
    ArityMismatch(Seq<char>, nat, nat),
    DivisionByZero,
    CoercionError,
    AssignmentTargetInvalid,
    CyclicAssignment(Seq<char>),
    StackDepthExceeded,
    NumericOverflow,
    Inexact,
    InvalidBytecode,
    AssertionFailed,
}

impl DeepView for Error {
    type V = ErrM;

    open spec fn deep_view(&self) -> ErrM {
        match self {
            Error::ParseError(s) => ErrM::ParseError(s@),
            Error::CompileError(s) => ErrM::CompileError(s@),
            Error::VariableUnknown(s) => ErrM::VariableUnknown(s@),
            Error::FunctionUnknown(s) => ErrM::FunctionUnknown(s@),
            Error::NoMatchingOverload(s, n) => ErrM::NoMatchingOverload(s@, *n as nat),
            Error::ArityMismatch(s, a, b) => ErrM::ArityMismatch(s@, *a as nat, *b as nat),
            Error::DivisionByZero => ErrM::DivisionByZero,
            Error::CoercionError => ErrM::CoercionError,
            Error::AssignmentTargetInvalid => ErrM::AssignmentTargetInvalid,
            Error::CyclicAssignment(s) => ErrM::CyclicAssignment(s@),
            Error::StackDepthExceeded => ErrM::StackDepthExceeded,
            Error::NumericOverflow => ErrM::NumericOverflow,
            Error::Inexact => ErrM::Inexact,
            Error::InvalidBytecode => ErrM::InvalidBytecode,
            Error::AssertionFailed => ErrM::AssertionFailed,
        }
    }
}

} // verus!
