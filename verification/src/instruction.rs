use vstd::prelude::*;

verus! {

/// Source byte `>`.
pub const TOKEN_RIGHT: u8 = 0x3E;

/// Source byte `<`.
pub const TOKEN_LEFT: u8 = 0x3C;

/// Source byte `+`.
pub const TOKEN_PLUS: u8 = 0x2B;

/// Source byte `-`.
pub const TOKEN_MINUS: u8 = 0x2D;

/// Source byte `.`.
pub const TOKEN_DOT: u8 = 0x2E;

/// Source byte `,`.
pub const TOKEN_COMMA: u8 = 0x2C;

/// Source byte `[`.
pub const TOKEN_OPEN: u8 = 0x5B;

/// Source byte `]`.
pub const TOKEN_CLOSE: u8 = 0x5D;

/// One operation of the tape machine.
///
/// The two loop instructions carry the index of their partner in the
/// instruction sequence they belong to.
#[derive(Clone, Copy, Debug, PartialEq, Eq, Structural)]
pub enum Instruction {
    /// Move the pointer one cell to the right.
    MoveRight,
    /// Move the pointer one cell to the left.
    MoveLeft,
    /// Add one to the current cell, wrapping at 256.
    Increment,
    /// Subtract one from the current cell, wrapping below zero.
    Decrement,
    /// Write the current cell to the output.
    Output,
    /// Read one byte of input into the current cell.
    Input,
    /// Skip past the partner `LoopEnd` when the current cell is zero.
    LoopStart(usize),
    /// Go back to the partner `LoopStart`.
    LoopEnd(usize),
}

/// Whether a source byte is one of the eight meaningful characters.
pub open spec fn is_token(b: u8) -> bool {
    b == TOKEN_RIGHT || b == TOKEN_LEFT || b == TOKEN_PLUS || b == TOKEN_MINUS || b == TOKEN_DOT
        || b == TOKEN_COMMA || b == TOKEN_OPEN || b == TOKEN_CLOSE
}

/// The instruction that one of the six delimiter-free characters stands for.
pub open spec fn simple_instruction(b: u8) -> Instruction {
    if b == TOKEN_RIGHT {
        Instruction::MoveRight
    } else if b == TOKEN_LEFT {
        Instruction::MoveLeft
    } else if b == TOKEN_PLUS {
        Instruction::Increment
    } else if b == TOKEN_MINUS {
        Instruction::Decrement
    } else if b == TOKEN_DOT {
        Instruction::Output
    } else {
        Instruction::Input
    }
}

/// Every loop instruction of `p` points at a partner of the other kind that
/// points back at it, the start before the end.
pub open spec fn linked(p: Seq<Instruction>) -> bool {
    forall|i: int| 0 <= i < p.len() ==> #[trigger] linked_at(p, i)
}

/// The link condition for the instruction at index `i`.
pub open spec fn linked_at(p: Seq<Instruction>, i: int) -> bool {
    match p[i] {
        Instruction::LoopStart(j) => i < j < p.len() && p[j as int] == Instruction::LoopEnd(
            i as usize,
        ),
        Instruction::LoopEnd(j) => j < i && p[j as int] == Instruction::LoopStart(i as usize),
        _ => true,
    }
}

/// Classifies a source byte.
pub fn is_instruction_byte(b: u8) -> (r: bool)
    ensures
        r == is_token(b),
{
    b == TOKEN_RIGHT || b == TOKEN_LEFT || b == TOKEN_PLUS || b == TOKEN_MINUS || b == TOKEN_DOT
        || b == TOKEN_COMMA || b == TOKEN_OPEN || b == TOKEN_CLOSE
}

} // verus!
