use crate::codegen::signed32;
use crate::machine::Host;
use vstd::prelude::*;

verus! {

// A model of the x86-64 processor, and of the host behind the context
// block, as far as the emitted code uses them. It knows the encodings that
// the emitter writes and no others. A value that the processor leaves
// undefined is `None` here, and code that reads it, or reads a cell off
// the tape, or calls with the stack out of line, has crashed. The host is
// a `Host`: endpoints in memory that may fail.

/// The registers that the emitted code saves.
#[derive(PartialEq, Eq, Structural)]
pub enum Register {
    Rbx,
    R12,
    R13,
}

/// The routines of the host, by their field in the context block.
#[derive(PartialEq, Eq, Structural)]
pub enum Routine {
    /// `+24`: takes the byte in `esi`; returns 0 once it is written, 1 if
    /// the output fails.
    Write,
    /// `+32`: returns the next input byte, 256 at the end of the input,
    /// 257 if the input fails.
    Read,
    /// `+40`: appends a zero cell; the tape may have moved afterwards.
    Grow,
}

/// When a branch is taken.
#[derive(PartialEq, Eq, Structural)]
pub enum Condition {
    Below,
    Zero,
    NotZero,
    Always,
}

/// One decoded instruction.
pub enum Op {
    /// `push` of a saved register.
    Push(Register),
    /// `pop` of a saved register.
    Pop(Register),
    /// `ret`.
    Return,
    /// `mov rbx, rdi`.
    KeepContext,
    /// `mov rdi, rbx`.
    PassContext,
    /// `mov r12, [rbx]`.
    LoadBase,
    /// `mov r13, [rbx+16]`.
    LoadIndex,
    /// `mov [rbx+16], r13`.
    StoreIndex,
    /// Flags of `r13` less the number of cells at `[rbx+8]`.
    MeasureIndex,
    /// `inc r13`.
    IndexUp,
    /// `dec r13`.
    IndexDown,
    /// `test r13, r13`.
    TestIndex,
    /// `test rax, rax`.
    TestResult,
    /// Flags of `rax` less a constant.
    MeasureResult(int),
    /// `mov rax, imm64`.
    LoadResult(int),
    /// `xor eax, eax`.
    ClearResult,
    /// `inc byte [r12+r13]`.
    CellUp,
    /// `dec byte [r12+r13]`.
    CellDown,
    /// `movzx esi, byte [r12+r13]`.
    PassCell,
    /// `mov [r12+r13], al`.
    StoreCell,
    /// Flags of the byte at `[r12+r13]` less a constant.
    MeasureCell(int),
    /// A branch to an offset of the code.
    Branch(Condition, int),
    /// `call` through a field of the context block.
    Call(Routine),
}

/// Whether the code is running, has returned a status word, or has done
/// what no correct code does.
pub enum Phase {
    Running,
    Returned(int),
    Crashed,
}

/// The processor and its host.
pub struct Native {
    pub phase: Phase,
    /// The offset of the next instruction.
    pub pc: int,
    /// `rdi` holds the address of the context block.
    pub context_passed: bool,
    /// `rbx` holds the address of the context block.
    pub context_kept: bool,
    /// `r12` holds the address at which the tape stands now.
    pub base_loaded: bool,
    /// `r13`, if the code has set it.
    pub index: Option<int>,
    /// `rax`.
    pub result: Option<int>,
    /// The low byte of `esi`.
    pub argument: Option<u8>,
    /// The zero flag.
    pub zero: Option<bool>,
    /// The carry flag.
    pub below: Option<bool>,
    /// The registers on the stack, the last pushed last.
    pub saved: Seq<Register>,
    /// The cells of the tape.
    pub tape: Seq<u8>,
    /// The field `+16` of the context block.
    pub pointer: int,
    /// How many input bytes the host has handed out.
    pub consumed: int,
    /// What the host has written.
    pub output: Seq<u8>,
}

/// The byte of the code at `i`, or -1 where there is none.
pub open spec fn byte_at(code: Seq<u8>, i: int) -> int {
    if 0 <= i < code.len() {
        code[i] as int
    } else {
        -1
    }
}

/// The displacement of a short branch.
pub open spec fn signed8(b: int) -> int {
    if b >= 128 {
        b - 256
    } else {
        b
    }
}

/// The eight bytes at `i` as a number, lowest byte first.
pub open spec fn word_at(code: Seq<u8>, i: int) -> int {
    code[i] + 0x100 * code[i + 1] + 0x1_0000 * code[i + 2] + 0x100_0000 * code[i + 3] + 0x1_0000_0000
        * (code[i + 4] + 0x100 * code[i + 5] + 0x1_0000 * code[i + 6] + 0x100_0000 * code[i + 7])
}

/// The instruction that stands at `pc` and the offset behind it, or `None`
/// where the bytes are none that the emitter writes.
#[verifier::opaque]
pub open spec fn decode(code: Seq<u8>, pc: int) -> Option<(Op, int)> {
    let b0 = byte_at(code, pc);
    let b1 = byte_at(code, pc + 1);
    let b2 = byte_at(code, pc + 2);
    let b3 = byte_at(code, pc + 3);
    let b4 = byte_at(code, pc + 4);
    if b0 == 0x53 {
        Some((Op::Push(Register::Rbx), pc + 1))
    } else if b0 == 0x5B {
        Some((Op::Pop(Register::Rbx), pc + 1))
    } else if b0 == 0xC3 {
        Some((Op::Return, pc + 1))
    } else if b0 == 0x41 && b1 == 0x54 {
        Some((Op::Push(Register::R12), pc + 2))
    } else if b0 == 0x41 && b1 == 0x55 {
        Some((Op::Push(Register::R13), pc + 2))
    } else if b0 == 0x41 && b1 == 0x5C {
        Some((Op::Pop(Register::R12), pc + 2))
    } else if b0 == 0x41 && b1 == 0x5D {
        Some((Op::Pop(Register::R13), pc + 2))
    } else if b0 == 0x31 && b1 == 0xC0 {
        Some((Op::ClearResult, pc + 2))
    } else if b0 == 0x48 && b1 == 0x89 && b2 == 0xFB {
        Some((Op::KeepContext, pc + 3))
    } else if b0 == 0x48 && b1 == 0x89 && b2 == 0xDF {
        Some((Op::PassContext, pc + 3))
    } else if b0 == 0x48 && b1 == 0x85 && b2 == 0xC0 {
        Some((Op::TestResult, pc + 3))
    } else if b0 == 0x48 && b1 == 0x3D && pc + 6 <= code.len() {
        Some((Op::MeasureResult(signed32(code.subrange(pc + 2, pc + 6))), pc + 6))
    } else if b0 == 0x48 && b1 == 0xB8 && pc + 10 <= code.len() {
        Some((Op::LoadResult(word_at(code, pc + 2)), pc + 10))
    } else if b0 == 0x4C && b1 == 0x8B && b2 == 0x23 {
        Some((Op::LoadBase, pc + 3))
    } else if b0 == 0x4C && b1 == 0x8B && b2 == 0x6B && b3 == 0x10 {
        Some((Op::LoadIndex, pc + 4))
    } else if b0 == 0x4C && b1 == 0x89 && b2 == 0x6B && b3 == 0x10 {
        Some((Op::StoreIndex, pc + 4))
    } else if b0 == 0x4C && b1 == 0x3B && b2 == 0x6B && b3 == 0x08 {
        Some((Op::MeasureIndex, pc + 4))
    } else if b0 == 0x49 && b1 == 0xFF && b2 == 0xC5 {
        Some((Op::IndexUp, pc + 3))
    } else if b0 == 0x49 && b1 == 0xFF && b2 == 0xCD {
        Some((Op::IndexDown, pc + 3))
    } else if b0 == 0x4D && b1 == 0x85 && b2 == 0xED {
        Some((Op::TestIndex, pc + 3))
    } else if b0 == 0x43 && b1 == 0xFE && b2 == 0x04 && b3 == 0x2C {
        Some((Op::CellUp, pc + 4))
    } else if b0 == 0x43 && b1 == 0xFE && b2 == 0x0C && b3 == 0x2C {
        Some((Op::CellDown, pc + 4))
    } else if b0 == 0x43 && b1 == 0x88 && b2 == 0x04 && b3 == 0x2C {
        Some((Op::StoreCell, pc + 4))
    } else if b0 == 0x43 && b1 == 0x80 && b2 == 0x3C && b3 == 0x2C && b4 >= 0 {
        Some((Op::MeasureCell(b4), pc + 5))
    } else if b0 == 0x43 && b1 == 0x0F && b2 == 0xB6 && b3 == 0x34 && b4 == 0x2C {
        Some((Op::PassCell, pc + 5))
    } else if b0 == 0x72 && b1 >= 0 {
        Some((Op::Branch(Condition::Below, pc + 2 + signed8(b1)), pc + 2))
    } else if b0 == 0x74 && b1 >= 0 {
        Some((Op::Branch(Condition::Zero, pc + 2 + signed8(b1)), pc + 2))
    } else if b0 == 0x75 && b1 >= 0 {
        Some((Op::Branch(Condition::NotZero, pc + 2 + signed8(b1)), pc + 2))
    } else if b0 == 0x0F && b1 == 0x84 && pc + 6 <= code.len() {
        Some(
            (
                Op::Branch(Condition::Zero, pc + 6 + signed32(code.subrange(pc + 2, pc + 6))),
                pc + 6,
            ),
        )
    } else if b0 == 0xE9 && pc + 5 <= code.len() {
        Some(
            (
                Op::Branch(Condition::Always, pc + 5 + signed32(code.subrange(pc + 1, pc + 5))),
                pc + 5,
            ),
        )
    } else if b0 == 0xFF && b1 == 0x53 && b2 == 0x18 {
        Some((Op::Call(Routine::Write), pc + 3))
    } else if b0 == 0xFF && b1 == 0x53 && b2 == 0x20 {
        Some((Op::Call(Routine::Read), pc + 3))
    } else if b0 == 0xFF && b1 == 0x53 && b2 == 0x28 {
        Some((Op::Call(Routine::Grow), pc + 3))
    } else {
        None
    }
}

/// The state of a crash.
pub open spec fn crashed(s: Native) -> Native {
    Native { phase: Phase::Crashed, ..s }
}

/// The code may read and write the current cell: `r12` is the base of the
/// tape and `r13` the index of one of its cells.
pub open spec fn on_cell(s: Native) -> bool {
    s.base_loaded && s.index is Some && 0 <= s.index->0 < s.tape.len()
}

/// The state with the flags of `left - right`, both unsigned.
pub open spec fn measured(s: Native, left: int, right: int, next: int) -> Native {
    Native { pc: next, zero: Some(left == right), below: Some(left < right), ..s }
}

/// What a call of a host routine does. A routine may change every
/// register that the calling convention does not protect.
pub open spec fn called(routine: Routine, next: int, host: Host, s: Native) -> Native {
    let after = Native {
        pc: next,
        context_passed: false,
        argument: None,
        zero: None,
        below: None,
        result: None,
        ..s
    };
    if !s.context_kept || !s.context_passed || s.saved.len() % 2 != 1 {
        crashed(s)
    } else {
        match routine {
            Routine::Write => match s.argument {
                Some(byte) => if host.capacity is Some && s.output.len() >= host.capacity->0 {
                    Native { result: Some(1), ..after }
                } else {
                    Native { output: s.output.push(byte), result: Some(0), ..after }
                },
                None => crashed(s),
            },
            Routine::Read => if host.breaks_at is Some && s.consumed >= host.breaks_at->0 {
                Native { result: Some(257), ..after }
            } else if 0 <= s.consumed < host.input.len() {
                Native {
                    consumed: s.consumed + 1,
                    result: Some(host.input[s.consumed] as int),
                    ..after
                }
            } else {
                Native { result: Some(256), ..after }
            },
            Routine::Grow => Native { tape: s.tape.push(0u8), base_loaded: false, ..after },
        }
    }
}

/// What one instruction does.
pub open spec fn perform(op: Op, next: int, host: Host, s: Native) -> Native {
    match op {
        Op::Push(register) => Native { pc: next, saved: s.saved.push(register), ..s },
        Op::Pop(register) => if s.saved.len() > 0 && s.saved.last() == register {
            Native {
                pc: next,
                saved: s.saved.drop_last(),
                context_kept: s.context_kept && register != Register::Rbx,
                base_loaded: s.base_loaded && register != Register::R12,
                index: if register == Register::R13 {
                    None
                } else {
                    s.index
                },
                ..s
            }
        } else {
            crashed(s)
        },
        Op::Return => match s.result {
            Some(word) => if s.saved.len() == 0 {
                Native { phase: Phase::Returned(word), ..s }
            } else {
                crashed(s)
            },
            None => crashed(s),
        },
        Op::KeepContext => if s.context_passed && s.saved.contains(Register::Rbx) {
            Native { pc: next, context_kept: true, ..s }
        } else {
            crashed(s)
        },
        Op::PassContext => if s.context_kept {
            Native { pc: next, context_passed: true, ..s }
        } else {
            crashed(s)
        },
        Op::LoadBase => if s.context_kept && s.saved.contains(Register::R12) {
            Native { pc: next, base_loaded: true, ..s }
        } else {
            crashed(s)
        },
        Op::LoadIndex => if s.context_kept && s.saved.contains(Register::R13) {
            Native { pc: next, index: Some(s.pointer), ..s }
        } else {
            crashed(s)
        },
        Op::StoreIndex => match s.index {
            Some(index) => if s.context_kept {
                Native { pc: next, pointer: index, ..s }
            } else {
                crashed(s)
            },
            None => crashed(s),
        },
        Op::MeasureIndex => match s.index {
            Some(index) => if s.context_kept {
                measured(s, index, s.tape.len() as int, next)
            } else {
                crashed(s)
            },
            None => crashed(s),
        },
        Op::IndexUp => match s.index {
            Some(index) => {
                let up = (index + 1) % 0x1_0000_0000_0000_0000;
                Native { pc: next, index: Some(up), zero: Some(up == 0), ..s }
            },
            None => crashed(s),
        },
        Op::IndexDown => match s.index {
            Some(index) => {
                let down = (index - 1) % 0x1_0000_0000_0000_0000;
                Native { pc: next, index: Some(down), zero: Some(down == 0), ..s }
            },
            None => crashed(s),
        },
        Op::TestIndex => match s.index {
            Some(index) => Native { pc: next, zero: Some(index == 0), below: Some(false), ..s },
            None => crashed(s),
        },
        Op::TestResult => match s.result {
            Some(word) => Native { pc: next, zero: Some(word == 0), below: Some(false), ..s },
            None => crashed(s),
        },
        Op::MeasureResult(operand) => match s.result {
            Some(word) => measured(s, word, operand % 0x1_0000_0000_0000_0000, next),
            None => crashed(s),
        },
        Op::LoadResult(word) => Native { pc: next, result: Some(word), ..s },
        Op::ClearResult => Native {
            pc: next,
            result: Some(0),
            zero: Some(true),
            below: Some(false),
            ..s
        },
        Op::CellUp => if on_cell(s) {
            let up = ((s.tape[s.index->0] + 1) % 256) as u8;
            Native { pc: next, tape: s.tape.update(s.index->0, up), zero: Some(up == 0), ..s }
        } else {
            crashed(s)
        },
        Op::CellDown => if on_cell(s) {
            let down = ((s.tape[s.index->0] + 255) % 256) as u8;
            Native { pc: next, tape: s.tape.update(s.index->0, down), zero: Some(down == 0), ..s }
        } else {
            crashed(s)
        },
        Op::PassCell => if on_cell(s) {
            Native { pc: next, argument: Some(s.tape[s.index->0]), ..s }
        } else {
            crashed(s)
        },
        Op::StoreCell => match s.result {
            Some(word) => if on_cell(s) {
                Native { pc: next, tape: s.tape.update(s.index->0, (word % 256) as u8), ..s }
            } else {
                crashed(s)
            },
            None => crashed(s),
        },
        Op::MeasureCell(operand) => if on_cell(s) {
            measured(s, s.tape[s.index->0] as int, operand, next)
        } else {
            crashed(s)
        },
        Op::Branch(condition, target) => {
            let taken = match condition {
                Condition::Below => s.below,
                Condition::Zero => s.zero,
                Condition::NotZero => match s.zero {
                    Some(zero) => Some(!zero),
                    None => None,
                },
                Condition::Always => Some(true),
            };
            match taken {
                Some(true) => Native { pc: target, ..s },
                Some(false) => Native { pc: next, ..s },
                None => crashed(s),
            }
        },
        Op::Call(routine) => called(routine, next, host, s),
    }
}

/// One instruction of the code. A program that has returned or crashed
/// stays as it is.
pub open spec fn native_step(code: Seq<u8>, host: Host, s: Native) -> Native {
    if !(s.phase is Running) {
        s
    } else {
        match decode(code, s.pc) {
            Some((op, next)) => perform(op, next, host, s),
            None => crashed(s),
        }
    }
}

/// `fuel` instructions of the code.
pub open spec fn native_run(code: Seq<u8>, host: Host, s: Native, fuel: nat) -> Native
    decreases fuel,
{
    if fuel == 0 {
        s
    } else {
        native_run(code, host, native_step(code, host, s), (fuel - 1) as nat)
    }
}

/// The state in which the host calls the code: the context in `rdi`,
/// nothing saved yet, the tape and the pointer in the context block.
pub open spec fn entered(s: Native, tape: Seq<u8>, pointer: int, output: Seq<u8>) -> bool {
    &&& s.phase is Running
    &&& s.pc == 0
    &&& s.context_passed
    &&& s.saved.len() == 0
    &&& s.tape == tape
    &&& s.pointer == pointer
    &&& s.consumed == 0
    &&& s.output == output
}

/// A run may be cut in two.
pub proof fn lemma_native_run_in_pieces(code: Seq<u8>, host: Host, s: Native, a: nat, b: nat)
    ensures
        native_run(code, host, s, a + b) == native_run(code, host, native_run(code, host, s, a), b),
    decreases a,
{
    if a > 0 {
        lemma_native_run_in_pieces(code, host, native_step(code, host, s), (a - 1) as nat, b);
    }
}

/// Code that has returned or crashed does nothing more.
pub proof fn lemma_native_run_stays(code: Seq<u8>, host: Host, s: Native, fuel: nat)
    requires
        !(s.phase is Running),
    ensures
        native_run(code, host, s, fuel) == s,
    decreases fuel,
{
    if fuel > 0 {
        lemma_native_run_stays(code, host, s, (fuel - 1) as nat);
    }
}

} // verus!
