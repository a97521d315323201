use vstd::prelude::*;

verus! {

/// Why a source text is not a program.
#[derive(Clone, Copy, Debug, PartialEq, Eq, Structural)]
pub enum ParserError {
    /// A `]` stands where no `[` is open.
    UnexpectedToken,
    /// The text ends while a `[` is still open; more text may complete it.
    IncompleteLoop,
}

/// What stopped a running program.
#[derive(Clone, Copy, Debug, PartialEq, Eq, Structural)]
pub enum Fault {
    /// The pointer was asked to move left of the first cell.
    PointerUnderflow,
    /// The output endpoint refused a byte.
    OutputFailed,
    /// The input endpoint failed other than by ending.
    InputFailed,
}

/// A fault together with the index of the instruction that raised it.
#[derive(Clone, Copy, Debug, PartialEq, Eq, Structural)]
pub struct RuntimeError {
    pub fault: Fault,
    pub at: usize,
}

/// Why no native code was produced for a valid program.
#[derive(Clone, Copy, Debug, PartialEq, Eq, Structural)]
pub enum CompileError {
    /// The chosen backend emits no native code.
    UnsupportedTarget,
    /// The code would not fit the 32-bit range of its branch displacements.
    CodeTooLarge,
    /// The host could not obtain memory for the code.
    AllocationFailed,
}

/// Any failure of the engine.
#[derive(Clone, Copy, Debug, PartialEq, Eq, Structural)]
pub enum Error {
    ParseError(ParserError),
    RuntimeError(RuntimeError),
    CompileError(CompileError),
}

impl ParserError {
    /// Whether appending more text can still turn the input into a program.
    pub fn is_continuable(&self) -> (r: bool)
        ensures
            r == (*self == ParserError::IncompleteLoop),
    {
        match self {
            ParserError::IncompleteLoop => true,
            ParserError::UnexpectedToken => false,
        }
    }
}

impl Error {
    /// Whether the interpreter can still run the program that failed: true
    /// exactly for compile errors, which only arise after validation.
    pub fn allows_fallback(&self) -> (r: bool)
        ensures
            r == (*self is CompileError),
    {
        match self {
            Error::CompileError(_) => true,
            _ => false,
        }
    }
}

} // verus!
