use crate::error::{CompileError, Fault, RuntimeError};
use crate::instruction::{linked, linked_at, Instruction};
use crate::parser::Program;
use vstd::prelude::*;

verus! {

// The emitted code is one System V x86-64 function that takes the address
// of a context block in `rdi` and returns a status word in `rax`. It keeps
// the context in `rbx`, the base of the tape in `r12` and the index of the
// current cell in `r13`. It contains no address: it reaches its host
// through three routines whose addresses stand in the context block, so
// the same bytes serve any pair of endpoints.
//
// The context block, in 8-byte fields:
//    +0  base address of the tape
//    +8  number of cells of the tape
//   +16  index of the current cell, read on entry and written on exit
//   +24  write routine: (context, byte) -> 0 if the byte was written
//   +32  read routine: (context) -> the byte, 256 at the end of the
//        input, anything larger if reading failed
//   +40  grow routine: (context), which appends one zero cell and renews
//        the fields at +0 and +8
//
// The status word is 0 when the program has run to its end. Otherwise its
// upper half is the code of a fault and its lower half the index of the
// instruction that raised it.

/// The largest code size whose branch displacements all fit 32 bits.
pub const CODE_LIMIT: usize = 0x7fff_ffff;

/// The size of the code that comes before the first instruction.
pub const PROLOGUE_LEN: usize = 15;

/// The size of the code that comes after the last instruction.
pub const EPILOGUE_LEN: usize = 12;

/// Saves `rbx`, `r12`, `r13`, then loads the context, the tape base and
/// the cell index.
pub open spec fn prologue() -> Seq<u8> {
    seq![
        0x53u8, 0x41, 0x54, 0x41, 0x55, 0x48, 0x89, 0xFB, 0x4C, 0x8B, 0x23, 0x4C, 0x8B, 0x6B, 0x10,
    ]
}

/// Clears `rax`; then, at the exit that faults jump to, stores the cell
/// index in the context, restores the saved registers and returns.
pub open spec fn epilogue() -> Seq<u8> {
    seq![0x31u8, 0xC0, 0x4C, 0x89, 0x6B, 0x10, 0x41, 0x5D, 0x41, 0x5C, 0x5B, 0xC3]
}

/// The size of the code for one instruction.
pub open spec fn block_len(instruction: Instruction) -> int {
    match instruction {
        Instruction::MoveRight => 18,
        Instruction::MoveLeft => 23,
        Instruction::Increment => 4,
        Instruction::Decrement => 4,
        Instruction::Output => 31,
        Instruction::Input => 35,
        Instruction::LoopStart(_) => 11,
        Instruction::LoopEnd(_) => 5,
    }
}

/// The size of the code for the first `k` instructions.
pub open spec fn body_len(p: Seq<Instruction>, k: int) -> int
    decreases k,
{
    if k <= 0 {
        0
    } else {
        body_len(p, k - 1) + block_len(p[k - 1])
    }
}

/// Where the code for instruction `k` begins; for `k == p.len()`, where
/// the epilogue begins.
pub open spec fn offset_of(p: Seq<Instruction>, k: int) -> int {
    PROLOGUE_LEN + body_len(p, k)
}

/// Where faults leave: behind the two bytes that clear `rax`.
pub open spec fn exit_of(p: Seq<Instruction>) -> int {
    offset_of(p, p.len() as int) + 2
}

/// The size of all the code.
pub open spec fn code_len(p: Seq<Instruction>) -> int {
    offset_of(p, p.len() as int) + EPILOGUE_LEN
}

/// The four bytes of `v`, lowest first.
#[verifier::opaque]
pub open spec fn le32(v: int) -> Seq<u8> {
    seq![
        (v % 256) as u8,
        ((v / 0x100) % 256) as u8,
        ((v / 0x1_0000) % 256) as u8,
        ((v / 0x100_0000) % 256) as u8,
    ]
}

/// A branch displacement in two's complement, lowest byte first.
#[verifier::opaque]
pub open spec fn rel32(d: int) -> Seq<u8> {
    le32(
        if d < 0 {
            d + 0x1_0000_0000
        } else {
            d
        },
    )
}

/// The number that four bytes written by `rel32` stand for.
pub open spec fn signed32(b: Seq<u8>) -> int {
    let u = b[0] + 0x100 * b[1] + 0x1_0000 * b[2] + 0x100_0000 * b[3];
    if u >= 0x8000_0000 {
        u - 0x1_0000_0000
    } else {
        u
    }
}

/// The code of a fault in the upper half of the status word.
pub open spec fn fault_code(fault: Fault) -> int {
    match fault {
        Fault::PointerUnderflow => 1,
        Fault::OutputFailed => 2,
        Fault::InputFailed => 3,
    }
}

/// Loads the status word of a fault into `rax` and jumps `d` bytes on, to
/// the exit.
#[verifier::opaque]
pub open spec fn fault_stub(fault: Fault, index: int, d: int) -> Seq<u8> {
    seq![0x48u8, 0xB8] + le32(index) + le32(fault_code(fault)) + seq![0xE9u8] + rel32(d)
}

/// The code for instruction `i` of `p`.
///
/// - `MoveRight` adds one to `r13` and calls the grow routine where that
///   leaves the tape.
/// - `MoveLeft` faults where `r13` is zero, else takes one from it.
/// - `Increment` and `Decrement` act on the byte at `r12 + r13`, which
///   wraps by itself.
/// - `Output` hands the current byte to the write routine and faults
///   where that returns anything but zero.
/// - `Input` calls the read routine and stores a byte, leaves the cell
///   alone at the end of the input, and faults on anything else.
/// - `LoopStart` compares the current byte with zero and, where it is
///   zero, branches to the code behind its partner.
/// - `LoopEnd` jumps back to the code of its partner.
pub open spec fn block(p: Seq<Instruction>, i: int) -> Seq<u8> {
    let at = offset_of(p, i);
    let exit = exit_of(p);
    match p[i] {
        Instruction::MoveRight => seq![
            0x49u8, 0xFF, 0xC5, 0x4C, 0x3B, 0x6B, 0x08, 0x72, 0x09, 0x48, 0x89, 0xDF, 0xFF, 0x53,
            0x28, 0x4C, 0x8B, 0x23,
        ],
        Instruction::MoveLeft => seq![0x4Du8, 0x85, 0xED, 0x75, 0x0F] + fault_stub(
            Fault::PointerUnderflow,
            i,
            exit - (at + 20),
        ) + seq![0x49u8, 0xFF, 0xCD],
        Instruction::Increment => seq![0x43u8, 0xFE, 0x04, 0x2C],
        Instruction::Decrement => seq![0x43u8, 0xFE, 0x0C, 0x2C],
        Instruction::Output => seq![
            0x48u8, 0x89, 0xDF, 0x43, 0x0F, 0xB6, 0x34, 0x2C, 0xFF, 0x53, 0x18, 0x48, 0x85, 0xC0,
            0x74, 0x0F,
        ] + fault_stub(Fault::OutputFailed, i, exit - (at + 31)),
        Instruction::Input => seq![
            0x48u8, 0x89, 0xDF, 0xFF, 0x53, 0x20, 0x48, 0x3D, 0x00, 0x01, 0x00, 0x00, 0x74, 0x15,
            0x72, 0x0F,
        ] + fault_stub(Fault::InputFailed, i, exit - (at + 31)) + seq![0x43u8, 0x88, 0x04, 0x2C],
        Instruction::LoopStart(target) => seq![0x43u8, 0x80, 0x3C, 0x2C, 0x00, 0x0F, 0x84]
            + rel32(offset_of(p, target + 1) - (at + 11)),
        Instruction::LoopEnd(target) => seq![0xE9u8] + rel32(offset_of(p, target as int) - (at + 5)),
    }
}

/// The code for the first `k` instructions of `p`.
pub open spec fn body(p: Seq<Instruction>, k: int) -> Seq<u8>
    decreases k,
{
    if k <= 0 {
        Seq::empty()
    } else {
        body(p, k - 1) + block(p, k - 1)
    }
}

/// The native code of `p`.
pub open spec fn emitted(p: Seq<Instruction>) -> Seq<u8> {
    prologue() + body(p, p.len() as int) + epilogue()
}

/// How a run of the emitted code ended.
#[derive(Clone, Copy, Debug, PartialEq, Eq, Structural)]
pub enum Exit {
    /// The program has run to its end.
    Finished,
    /// The program has failed.
    Failed(RuntimeError),
    /// The status word is none that the emitted code returns.
    Unrecognized,
}

/// The status word with which the emitted code reports `error`.
pub open spec fn status_word(error: RuntimeError) -> int {
    fault_code(error.fault) * 0x1_0000_0000 + error.at
}

/// What a status word says.
pub open spec fn exit_for(word: u64) -> Exit {
    let code = word / 0x1_0000_0000;
    let at = (word % 0x1_0000_0000) as usize;
    if word == 0 {
        Exit::Finished
    } else if code == 1 {
        Exit::Failed(RuntimeError { fault: Fault::PointerUnderflow, at })
    } else if code == 2 {
        Exit::Failed(RuntimeError { fault: Fault::OutputFailed, at })
    } else if code == 3 {
        Exit::Failed(RuntimeError { fault: Fault::InputFailed, at })
    } else {
        Exit::Unrecognized
    }
}

/// Offsets never decrease, and each instruction takes at least one byte.
pub proof fn lemma_offsets_grow(p: Seq<Instruction>, a: int, b: int)
    requires
        0 <= a <= b,
    ensures
        offset_of(p, a) + (b - a) <= offset_of(p, b),
        body_len(p, a) >= a,
    decreases b,
{
    if a < b {
        lemma_offsets_grow(p, a, b - 1);
    } else if a > 0 {
        lemma_offsets_grow(p, a - 1, a - 1);
    }
}

/// The sizes of the fields that carry numbers.
pub proof fn lemma_field_lens(v: int, fault: Fault, index: int, d: int)
    ensures
        le32(v).len() == 4,
        rel32(d).len() == 4,
        fault_stub(fault, index, d).len() == 15,
{
    reveal(le32);
    reveal(rel32);
    reveal(fault_stub);
}

/// The code of an instruction has the size that the layout gives it.
pub proof fn lemma_block_len(p: Seq<Instruction>, i: int)
    ensures
        block(p, i).len() == block_len(p[i]),
{
    reveal(le32);
    reveal(rel32);
    reveal(fault_stub);
}

/// The code of the first `k` instructions has the size that the layout
/// gives it.
pub proof fn lemma_body_len(p: Seq<Instruction>, k: int)
    ensures
        body(p, k).len() == body_len(p, k),
    decreases k,
{
    if k > 0 {
        lemma_body_len(p, k - 1);
        lemma_block_len(p, k - 1);
    }
}

/// The native code is as long as the layout says.
pub proof fn lemma_emitted_len(p: Seq<Instruction>)
    ensures
        emitted(p).len() == code_len(p),
{
    lemma_body_len(p, p.len() as int);
}

proof fn lemma_body_holds_block(p: Seq<Instruction>, i: int, k: int)
    requires
        0 <= i < k,
    ensures
        body(p, k).subrange(body_len(p, i), body_len(p, i + 1)) == block(p, i),
        body_len(p, i + 1) <= body(p, k).len(),
    decreases k,
{
    lemma_body_len(p, k);
    lemma_body_len(p, k - 1);
    lemma_block_len(p, k - 1);
    lemma_offsets_grow(p, i + 1, k);
    lemma_offsets_grow(p, i, i + 1);
    lemma_offsets_grow(p, 0, i);
    if k == i + 1 {
        assert(body(p, k).subrange(body_len(p, i), body_len(p, i + 1)) =~= block(p, i));
    } else {
        lemma_body_holds_block(p, i, k - 1);
        assert(body(p, k).subrange(body_len(p, i), body_len(p, i + 1)) =~= body(
            p,
            k - 1,
        ).subrange(body_len(p, i), body_len(p, i + 1)));
    }
}

/// The code of every instruction stands in the native code at its offset,
/// and ends where the next begins.
pub proof fn lemma_block_placement(p: Seq<Instruction>, i: int)
    requires
        0 <= i < p.len(),
    ensures
        emitted(p).subrange(offset_of(p, i), offset_of(p, i + 1)) == block(p, i),
        0 <= offset_of(p, i) < offset_of(p, i + 1) <= emitted(p).len(),
{
    let n = p.len() as int;
    lemma_body_holds_block(p, i, n);
    lemma_body_len(p, n);
    lemma_offsets_grow(p, i, i + 1);
    lemma_offsets_grow(p, 0, i);
    lemma_block_len(p, i);
    assert(emitted(p).subrange(offset_of(p, i), offset_of(p, i + 1)) =~= body(p, n).subrange(
        body_len(p, i),
        body_len(p, i + 1),
    ));
}

/// A displacement that fits 32 bits is read back from its four bytes as
/// it was written.
pub proof fn lemma_rel32_round_trip(d: int)
    requires
        -0x8000_0000 <= d < 0x8000_0000,
    ensures
        rel32(d).len() == 4,
        signed32(rel32(d)) == d,
{
    reveal(le32);
    reveal(rel32);
    let u = if d < 0 {
        d + 0x1_0000_0000
    } else {
        d
    };
    let b = le32(u);
    assert(b[0] + 0x100 * b[1] + 0x1_0000 * b[2] + 0x100_0000 * b[3] == u);
}

/// The branch of a `LoopStart`, read back from the native code, leads to
/// the code behind its partner.
pub proof fn lemma_loop_start_lands(p: Seq<Instruction>, i: int)
    requires
        linked(p),
        0 <= i < p.len(),
        p[i] is LoopStart,
        code_len(p) <= CODE_LIMIT,
    ensures
        ({
            let code = emitted(p);
            let at = offset_of(p, i);
            let target = p[i]->LoopStart_0;
            &&& at + 11 <= code.len()
            &&& code[at + 5] == 0x0F
            &&& code[at + 6] == 0x84
            &&& at + 11 + signed32(code.subrange(at + 7, at + 11)) == offset_of(p, target + 1)
            &&& at + 11 == offset_of(p, i + 1)
        }),
{
    let code = emitted(p);
    let at = offset_of(p, i);
    let target = p[i]->LoopStart_0;
    assert(linked_at(p, i));
    lemma_block_placement(p, i);
    lemma_offsets_grow(p, 0, i);
    lemma_offsets_grow(p, i + 1, target + 1);
    lemma_offsets_grow(p, target + 1, p.len() as int);
    let d = offset_of(p, target + 1) - (at + 11);
    lemma_rel32_round_trip(d);
    let b = code.subrange(at, at + 11);
    assert(b == block(p, i));
    assert(b[5] == code[at + 5]);
    assert(b[6] == code[at + 6]);
    assert(code.subrange(at + 7, at + 11) =~= b.subrange(7, 11));
    assert(b.subrange(7, 11) =~= rel32(d));
}

/// The jump of a `LoopEnd`, read back from the native code, leads to the
/// code of its partner, where the cell is tested again.
pub proof fn lemma_loop_end_lands(p: Seq<Instruction>, i: int)
    requires
        linked(p),
        0 <= i < p.len(),
        p[i] is LoopEnd,
        code_len(p) <= CODE_LIMIT,
    ensures
        ({
            let code = emitted(p);
            let at = offset_of(p, i);
            let target = p[i]->LoopEnd_0;
            &&& at + 5 <= code.len()
            &&& code[at] == 0xE9
            &&& at + 5 + signed32(code.subrange(at + 1, at + 5)) == offset_of(p, target as int)
            &&& at + 5 == offset_of(p, i + 1)
        }),
{
    let code = emitted(p);
    let at = offset_of(p, i);
    let target = p[i]->LoopEnd_0;
    assert(linked_at(p, i));
    lemma_block_placement(p, i);
    lemma_offsets_grow(p, 0, target as int);
    lemma_offsets_grow(p, target as int, i);
    lemma_offsets_grow(p, i + 1, p.len() as int);
    let d = offset_of(p, target as int) - (at + 5);
    lemma_rel32_round_trip(d);
    let b = code.subrange(at, at + 5);
    assert(b == block(p, i));
    assert(b[0] == code[at]);
    assert(code.subrange(at + 1, at + 5) =~= b.subrange(1, 5));
    assert(b.subrange(1, 5) =~= rel32(d));
}

/// Every fault is read back from its status word, and no fault has the
/// status word of a program that ran to its end.
pub proof fn lemma_status_round_trip(error: RuntimeError)
    requires
        error.at <= CODE_LIMIT,
    ensures
        0 < status_word(error) <= u64::MAX,
        exit_for(status_word(error) as u64) == Exit::Failed(error),
{
}

fn put(code: &mut Vec<u8>, bytes: &[u8])
    ensures
        final(code)@ == old(code)@ + bytes@,
{
    code.extend_from_slice(bytes);
}

fn put_le32(code: &mut Vec<u8>, value: u32)
    ensures
        final(code)@ == old(code)@ + le32(value as int),
{
    let b0: u8 = (value % 256) as u8;
    let b1: u8 = ((value / 0x100) % 256) as u8;
    let b2: u8 = ((value / 0x1_0000) % 256) as u8;
    let b3: u8 = ((value / 0x100_0000) % 256) as u8;
    let bytes: [u8; 4] = [b0, b1, b2, b3];
    assert(bytes@ =~= le32(value as int)) by {
        reveal(le32);
    }
    put(code, bytes.as_slice());
}

/// Appends the displacement of a branch whose next instruction stands at
/// `from` and whose destination is `to`.
fn put_rel32(code: &mut Vec<u8>, from: usize, to: usize)
    requires
        from <= CODE_LIMIT,
        to <= CODE_LIMIT,
    ensures
        final(code)@ == old(code)@ + rel32(to - from),
{
    let value: u32 = if to >= from {
        (to - from) as u32
    } else {
        (0x1_0000_0000u64 - ((from - to) as u64)) as u32
    };
    proof {
        reveal(rel32);
    }
    put_le32(code, value);
}

fn put_fault_stub(code: &mut Vec<u8>, fault: Fault, index: usize, from: usize, exit: usize)
    requires
        index <= CODE_LIMIT,
        from <= CODE_LIMIT,
        exit <= CODE_LIMIT,
    ensures
        final(code)@ == old(code)@ + fault_stub(fault, index as int, exit - from),
{
    let ghost before = code@;
    let number: u32 = match fault {
        Fault::PointerUnderflow => 1,
        Fault::OutputFailed => 2,
        Fault::InputFailed => 3,
    };
    put(code, &[0x48, 0xB8]);
    put_le32(code, index as u32);
    put_le32(code, number);
    put(code, &[0xE9]);
    put_rel32(code, from, exit);
    assert(code@ =~= before + fault_stub(fault, index as int, exit - from)) by {
        reveal(fault_stub);
    }
}

fn block_size(instruction: Instruction) -> (n: usize)
    ensures
        n == block_len(instruction),
{
    match instruction {
        Instruction::MoveRight => 18,
        Instruction::MoveLeft => 23,
        Instruction::Increment => 4,
        Instruction::Decrement => 4,
        Instruction::Output => 31,
        Instruction::Input => 35,
        Instruction::LoopStart(_) => 11,
        Instruction::LoopEnd(_) => 5,
    }
}

/// `offsets` is the layout of `p`: the offset of every instruction, and
/// behind them the offset of the epilogue.
spec fn is_layout(p: Seq<Instruction>, offsets: Seq<usize>) -> bool {
    &&& offsets.len() == p.len() + 1
    &&& forall|k: int| 0 <= k <= p.len() ==> #[trigger] offsets[k] == offset_of(p, k)
}

/// First pass: the offset of every instruction, or `None` where the code
/// would be larger than `CODE_LIMIT`.
fn layout(program: &Program) -> (r: Option<Vec<usize>>)
    ensures
        match r {
            Some(offsets) => code_len(program@) <= CODE_LIMIT && is_layout(program@, offsets@),
            None => code_len(program@) > CODE_LIMIT,
        },
{
    let instructions = program.instructions();
    let count = instructions.len();
    let mut offsets: Vec<usize> = Vec::new();
    let mut at: usize = PROLOGUE_LEN;
    offsets.push(at);
    let mut i: usize = 0;
    while i < count
        invariant
            i <= count,
            count == instructions@.len(),
            instructions@ == program@,
            at == offset_of(program@, i as int),
            at + EPILOGUE_LEN <= CODE_LIMIT,
            offsets@.len() == i + 1,
            forall|k: int| 0 <= k <= i ==> #[trigger] offsets@[k] == offset_of(program@, k),
        decreases count - i,
    {
        let size = block_size(instructions[i]);
        if at > CODE_LIMIT - EPILOGUE_LEN - size {
            proof {
                lemma_offsets_grow(program@, i as int + 1, count as int);
            }
            return None;
        }
        at = at + size;
        offsets.push(at);
        i = i + 1;
    }
    Some(offsets)
}

/// Second pass, one instruction: appends the code of instruction `i`.
fn put_block(code: &mut Vec<u8>, program: &Program, offsets: &Vec<usize>, i: usize)
    requires
        i < program@.len(),
        is_layout(program@, offsets@),
        code_len(program@) <= CODE_LIMIT,
    ensures
        final(code)@ == old(code)@ + block(program@, i as int),
{
    let ghost before = code@;
    let ghost p = program@;
    proof {
        use_type_invariant(program);
        assert(linked_at(p, i as int));
        lemma_offsets_grow(p, i as int, i as int + 1);
        lemma_offsets_grow(p, i as int + 1, p.len() as int);
        lemma_offsets_grow(p, 0, i as int);
    }
    let instructions = program.instructions();
    let count = instructions.len();
    let at = offsets[i];
    let exit = offsets[count] + 2;
    match instructions[i] {
        Instruction::MoveRight => {
            put(
                code,
                &[
                    0x49, 0xFF, 0xC5, 0x4C, 0x3B, 0x6B, 0x08, 0x72, 0x09, 0x48, 0x89, 0xDF, 0xFF,
                    0x53, 0x28, 0x4C, 0x8B, 0x23,
                ],
            );
        },
        Instruction::MoveLeft => {
            put(code, &[0x4D, 0x85, 0xED, 0x75, 0x0F]);
            put_fault_stub(code, Fault::PointerUnderflow, i, at + 20, exit);
            put(code, &[0x49, 0xFF, 0xCD]);
        },
        Instruction::Increment => {
            put(code, &[0x43, 0xFE, 0x04, 0x2C]);
        },
        Instruction::Decrement => {
            put(code, &[0x43, 0xFE, 0x0C, 0x2C]);
        },
        Instruction::Output => {
            put(
                code,
                &[
                    0x48, 0x89, 0xDF, 0x43, 0x0F, 0xB6, 0x34, 0x2C, 0xFF, 0x53, 0x18, 0x48, 0x85,
                    0xC0, 0x74, 0x0F,
                ],
            );
            put_fault_stub(code, Fault::OutputFailed, i, at + 31, exit);
        },
        Instruction::Input => {
            put(
                code,
                &[
                    0x48, 0x89, 0xDF, 0xFF, 0x53, 0x20, 0x48, 0x3D, 0x00, 0x01, 0x00, 0x00, 0x74,
                    0x15, 0x72, 0x0F,
                ],
            );
            put_fault_stub(code, Fault::InputFailed, i, at + 31, exit);
            put(code, &[0x43, 0x88, 0x04, 0x2C]);
        },
        Instruction::LoopStart(target) => {
            proof {
                lemma_offsets_grow(p, target as int + 1, p.len() as int);
            }
            put(code, &[0x43, 0x80, 0x3C, 0x2C, 0x00, 0x0F, 0x84]);
            put_rel32(code, at + 11, offsets[target + 1]);
        },
        Instruction::LoopEnd(target) => {
            proof {
                lemma_offsets_grow(p, target as int, p.len() as int);
            }
            put(code, &[0xE9]);
            put_rel32(code, at + 5, offsets[target]);
        },
    }
    assert(code@ =~= before + block(p, i as int));
}

/// Emits the native code of `program` in two passes: the first lays the
/// instructions out, the second writes them with every branch resolved.
///
/// It fails only where the code would be larger than `CODE_LIMIT`, the
/// size up to which every displacement fits its 32 bits.
pub fn generate(program: &Program) -> (r: Result<Vec<u8>, CompileError>)
    ensures
        match r {
            Ok(code) => code_len(program@) <= CODE_LIMIT && code@ == emitted(program@),
            Err(error) => code_len(program@) > CODE_LIMIT && error == CompileError::CodeTooLarge,
        },
{
    let offsets = match layout(program) {
        Some(offsets) => offsets,
        None => {
            return Err(CompileError::CodeTooLarge);
        },
    };
    let count = program.len();
    let mut code: Vec<u8> = Vec::new();
    put(
        &mut code,
        &[0x53, 0x41, 0x54, 0x41, 0x55, 0x48, 0x89, 0xFB, 0x4C, 0x8B, 0x23, 0x4C, 0x8B, 0x6B, 0x10],
    );
    assert(code@ =~= prologue() + body(program@, 0));
    let mut i: usize = 0;
    while i < count
        invariant
            i <= count,
            count == program@.len(),
            is_layout(program@, offsets@),
            code_len(program@) <= CODE_LIMIT,
            code@ == prologue() + body(program@, i as int),
        decreases count - i,
    {
        put_block(&mut code, program, &offsets, i);
        assert(code@ =~= prologue() + body(program@, i as int + 1));
        i = i + 1;
    }
    put(&mut code, &[0x31, 0xC0, 0x4C, 0x89, 0x6B, 0x10, 0x41, 0x5D, 0x41, 0x5C, 0x5B, 0xC3]);
    assert(code@ =~= emitted(program@));
    Ok(code)
}

/// Reads the status word that a run of the emitted code returned.
pub fn read_status(word: u64) -> (r: Exit)
    ensures
        r == exit_for(word),
{
    let code: u64 = word / 0x1_0000_0000;
    let at: usize = (word % 0x1_0000_0000) as usize;
    if word == 0 {
        Exit::Finished
    } else if code == 1 {
        Exit::Failed(RuntimeError { fault: Fault::PointerUnderflow, at })
    } else if code == 2 {
        Exit::Failed(RuntimeError { fault: Fault::OutputFailed, at })
    } else if code == 3 {
        Exit::Failed(RuntimeError { fault: Fault::InputFailed, at })
    } else {
        Exit::Unrecognized
    }
}

} // verus!
