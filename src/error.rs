use vstd::prelude::*;

verus! {

/// What went wrong while compiling.
#[derive(Debug, Clone, Copy, PartialEq, Eq, Structural)]
pub enum ErrorKind {
    UnclosedComment,
    UnclosedString,
    UnrecognizedToken,
    UnexpectedSymbol,
    TrailingDot,
    ExpectedHex,
    NumberOutOfRange,
    UndefinedVariable,
    UndefinedFunction,
    NotEnoughArguments,
    MissingReturn,
    NotAnObject,
    NotAnArray,
    FieldNotFound,
    IndexNotNumber,
    IndexOutOfRange,
    InvalidOperands,
    DivisionByZero,
    NotIterable,
    ObjectInCss,
    RecursionLimit,
    DuplicateParameter,
}

/// A compilation failure: its kind, the name or text it concerns (a variable
/// name, a field, an operator; possibly empty) and, where known, the
/// `(line, column)` in the source, both counted from 1.
#[derive(Debug, Clone)]
pub struct Error {
    pub kind: ErrorKind,
    pub detail: Vec<u8>,
    pub at: Option<(usize, usize)>,
}

impl Error {
    pub fn new(kind: ErrorKind, detail: Vec<u8>, at: Option<(usize, usize)>) -> (r: Error)
        ensures
            r.kind == kind,
            r.detail@ == detail@,
            r.at == at,
    {
        Error { kind, detail, at }
    }

    /// An error that concerns no particular name.
    pub fn bare(kind: ErrorKind, at: Option<(usize, usize)>) -> (r: Error)
        ensures
            r.kind == kind,
            r.detail@ == Seq::<u8>::empty(),
            r.at == at,
    {
        let r = Error { kind, detail: Vec::new(), at };
        assert(r.detail@ =~= Seq::<u8>::empty());
        r
    }
}

} // verus!
