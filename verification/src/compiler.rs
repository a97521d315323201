use crate::codegen::{code_len, emitted, generate, CODE_LIMIT};
use crate::error::{CompileError, Error, ParserError};
use crate::instruction::Instruction;
use crate::parser::{
    closes_unopened, depth, lemma_program_of, parse, program_of, tokens, Program,
};
use vstd::prelude::*;
use vstd::string::StringSliceAdditionalSpecFns;

verus! {

/// The ways to run a program. The host picks one by what its processor is.
#[derive(Clone, Copy, Debug, PartialEq, Eq, Structural)]
pub enum Backend {
    /// Native x86-64 code.
    Native,
    /// The interpreter, which runs everywhere.
    Interpreter,
}

/// A program with its native code, ready to be mapped and run.
#[derive(Debug)]
pub struct Artifact {
    /// The validated program, for a host that wants to interpret it after all.
    pub program: Program,
    /// The native code; see the `codegen` module for how it is called.
    pub code: Vec<u8>,
}

/// What `compile` owes for the source bytes `src`: the error of
/// validation where there is one; else, for the interpreter,
/// `UnsupportedTarget`; else `CodeTooLarge` where the code would pass
/// `CODE_LIMIT`; else the program and its code.
pub open spec fn compiles_to(
    src: Seq<u8>,
    backend: Backend,
    r: Result<(Seq<Instruction>, Seq<u8>), Error>,
) -> bool {
    let t = tokens(src);
    let p = program_of(src);
    if closes_unopened(t) {
        r == Err::<(Seq<Instruction>, Seq<u8>), Error>(
            Error::ParseError(ParserError::UnexpectedToken),
        )
    } else if depth(t, t.len() as int) > 0 {
        r == Err::<(Seq<Instruction>, Seq<u8>), Error>(
            Error::ParseError(ParserError::IncompleteLoop),
        )
    } else if backend == Backend::Interpreter {
        r == Err::<(Seq<Instruction>, Seq<u8>), Error>(
            Error::CompileError(CompileError::UnsupportedTarget),
        )
    } else if code_len(p) > CODE_LIMIT {
        r == Err::<(Seq<Instruction>, Seq<u8>), Error>(
            Error::CompileError(CompileError::CodeTooLarge),
        )
    } else {
        r == Ok::<(Seq<Instruction>, Seq<u8>), Error>((p, emitted(p)))
    }
}

/// The view of a compilation result.
pub open spec fn compiled(r: Result<Artifact, Error>) -> Result<(Seq<Instruction>, Seq<u8>), Error> {
    match r {
        Ok(artifact) => Ok((artifact.program@, artifact.code@)),
        Err(error) => Err(error),
    }
}

/// Validates `source`, then emits its native code.
///
/// An error of validation comes back as it is, whatever the backend: it
/// speaks of the text. A compile error comes only for a valid text, so
/// the caller may hand that text to the interpreter.
pub fn compile(source: &str, backend: Backend) -> (r: Result<Artifact, Error>)
    ensures
        compiles_to(source.spec_bytes(), backend, compiled(r)),
{
    let program = match parse(source) {
        Ok(program) => program,
        Err(error) => {
            return Err(Error::ParseError(error));
        },
    };
    proof {
        lemma_program_of(source.spec_bytes(), program@);
    }
    match backend {
        Backend::Interpreter => Err(Error::CompileError(CompileError::UnsupportedTarget)),
        Backend::Native => match generate(&program) {
            Ok(code) => Ok(Artifact { program, code }),
            Err(error) => Err(Error::CompileError(error)),
        },
    }
}

/// A compile error is only ever reported for a text that validates: the
/// interpreter can run that text.
pub proof fn lemma_compile_error_implies_valid(
    src: Seq<u8>,
    backend: Backend,
    r: Result<(Seq<Instruction>, Seq<u8>), Error>,
)
    requires
        compiles_to(src, backend, r),
        r matches Err(Error::CompileError(_)),
    ensures
        crate::parser::balanced(tokens(src)),
{
    crate::parser::lemma_validation_is_total(src);
}

} // verus!
