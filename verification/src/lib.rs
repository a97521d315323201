//! An engine for an eight-instruction tape language.
//!
//! - `instruction`, `error`: the instructions and what can go wrong.
//! - `parser`: validates a text and links each loop start with its end.
//! - `machine`: what a program means, as functions on a tape.
//! - `executor`: the interpreter, which keeps its tape between fragments
//!   and runs within a step budget.
//! - `codegen`: emits position-independent x86-64 code for a program.
//! - `compiler`: validation, then emission, for the backend at hand.
//! - `processor`, `simulation`: a model of the processor, and the proof
//!   that the emitted code does on it what the interpreter does.
//! - `session`: fragments fed to one session run as one program.
//! - `repl`: the decisions of an interactive session.
//!
//! Nothing here reads, writes or maps memory: a host does that, and is
//! told by the engine what to do next.

pub mod codegen;
pub mod compiler;
pub mod error;
pub mod executor;
pub mod instruction;
pub mod machine;
pub mod parser;
pub mod processor;
pub mod repl;
pub mod session;
pub mod simulation;
