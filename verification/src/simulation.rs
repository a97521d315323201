use crate::codegen::{
    block, block_len, code_len, emitted, epilogue, exit_for, exit_of, fault_code, fault_stub,
    le32, lemma_block_placement, lemma_field_lens, lemma_body_len, lemma_loop_end_lands, lemma_loop_start_lands,
    lemma_offsets_grow, lemma_rel32_round_trip, lemma_status_round_trip, offset_of, prologue,
    rel32, signed32, status_word, Exit, CODE_LIMIT,
};
use crate::error::{Fault, RuntimeError};
use crate::instruction::{linked, Instruction};
use crate::machine::{
    failure, halted, lemma_step_keeps_valid, lemma_unfailing_run, run, served_run, step,
    underflows, unfailing, Config, Host, Machine, World,
};
use crate::executor::report;
use crate::processor::{
    byte_at, decode, entered, lemma_native_run_in_pieces, native_run, native_step, word_at, Condition, Native, Op, Phase, Register, Routine,
};
use vstd::prelude::*;

verus! {

/// The registers on the stack while the body of the code runs.
pub open spec fn saved_registers() -> Seq<Register> {
    seq![Register::Rbx, Register::R12, Register::R13]
}

/// The processor stands at the code of the instruction that the
/// interpreter does next, on the same tape and with the same endpoints.
pub open spec fn corresponds(p: Seq<Instruction>, w: World, s: Native) -> bool {
    &&& s.phase is Running
    &&& s.pc == offset_of(p, w.config.ip)
    &&& s.context_kept
    &&& s.base_loaded
    &&& s.index == Some(w.config.machine.pointer)
    &&& s.saved == saved_registers()
    &&& s.tape == w.config.machine.cells
    &&& s.consumed == w.consumed
    &&& s.output == w.output
}

/// The largest tape for which the model of the processor is exact: its
/// index register has 64 bits.
pub open spec fn tape_limit() -> int {
    0xffff_ffff_ffff_ffff
}

/// What the lemmas on single instructions take for granted.
pub open spec fn simulating(p: Seq<Instruction>, w: World, s: Native) -> bool {
    &&& linked(p)
    &&& code_len(p) <= CODE_LIMIT
    &&& w.config.machine.valid()
    &&& w.config.machine.cells.len() < tape_limit()
    &&& 0 <= w.config.ip < p.len()
    &&& corresponds(p, w, s)
}

proof fn lemma_block_bytes(p: Seq<Instruction>, i: int)
    requires
        0 <= i < p.len(),
    ensures
        forall|x: int|
            offset_of(p, i) <= x < offset_of(p, i + 1) ==> #[trigger] emitted(p)[x] == block(
                p,
                i,
            )[x - offset_of(p, i)],
        offset_of(p, i + 1) == offset_of(p, i) + block_len(p[i]),
        0 <= offset_of(p, i),
        offset_of(p, i + 1) < emitted(p).len(),
{
    lemma_block_placement(p, i);
    lemma_offsets_grow(p, i + 1, p.len() as int);
    lemma_body_len(p, p.len() as int);
    let a = offset_of(p, i);
    let b = offset_of(p, i + 1);
    assert forall|x: int| a <= x < b implies #[trigger] emitted(p)[x] == block(p, i)[x - a] by {
        assert(emitted(p).subrange(a, b)[x - a] == emitted(p)[x]);
    }
}

proof fn lemma_decode_arithmetic(p: Seq<Instruction>, i: int)
    requires
        0 <= i < p.len(),
        p[i] == Instruction::Increment || p[i] == Instruction::Decrement,
    ensures
        decode(emitted(p), offset_of(p, i)) == Some(
            (
                if p[i] == Instruction::Increment {
                    Op::CellUp
                } else {
                    Op::CellDown
                },
                offset_of(p, i) + 4,
            ),
        ),
{
    reveal(decode);
    lemma_block_bytes(p, i);
}

proof fn lemma_decode_loop_start(p: Seq<Instruction>, i: int)
    requires
        linked(p),
        code_len(p) <= CODE_LIMIT,
        0 <= i < p.len(),
        p[i] is LoopStart,
    ensures
        ({
            let code = emitted(p);
            let at = offset_of(p, i);
            &&& decode(code, at) == Some((Op::MeasureCell(0), at + 5))
            &&& decode(code, at + 5) == Some(
                (Op::Branch(Condition::Zero, offset_of(p, p[i]->LoopStart_0 + 1)), at + 11),
            )
        }),
{
    reveal(decode);
    let code = emitted(p);
    let at = offset_of(p, i);
    lemma_block_bytes(p, i);
    lemma_loop_start_lands(p, i);
    assert(byte_at(code, at + 5) == 0x0F);
    assert(byte_at(code, at + 6) == 0x84);
}

proof fn lemma_decode_loop_end(p: Seq<Instruction>, i: int)
    requires
        linked(p),
        code_len(p) <= CODE_LIMIT,
        0 <= i < p.len(),
        p[i] is LoopEnd,
    ensures
        ({
            let code = emitted(p);
            let at = offset_of(p, i);
            decode(code, at) == Some(
                (Op::Branch(Condition::Always, offset_of(p, p[i]->LoopEnd_0 as int)), at + 5),
            )
        }),
{
    reveal(decode);
    let code = emitted(p);
    let at = offset_of(p, i);
    lemma_block_bytes(p, i);
    lemma_loop_end_lands(p, i);
    assert(byte_at(code, at) == 0xE9);
}

#[verifier::rlimit(30)]
proof fn lemma_decode_move_right(p: Seq<Instruction>, i: int)
    requires
        0 <= i < p.len(),
        p[i] == Instruction::MoveRight,
    ensures
        ({
            let code = emitted(p);
            let at = offset_of(p, i);
            &&& decode(code, at) == Some((Op::IndexUp, at + 3))
            &&& decode(code, at + 3) == Some((Op::MeasureIndex, at + 7))
            &&& decode(code, at + 7) == Some((Op::Branch(Condition::Below, at + 18), at + 9))
            &&& decode(code, at + 9) == Some((Op::PassContext, at + 12))
            &&& decode(code, at + 12) == Some((Op::Call(Routine::Grow), at + 15))
            &&& decode(code, at + 15) == Some((Op::LoadBase, at + 18))
        }),
{
    reveal(decode);
    lemma_block_bytes(p, i);
}

proof fn lemma_move_left_shape(p: Seq<Instruction>, i: int)
    requires
        0 <= i < p.len(),
        p[i] == Instruction::MoveLeft,
    ensures
        ({
            let b = block(p, i);
            &&& b.len() == 23
            &&& b[0] == 0x4D
            &&& b[1] == 0x85
            &&& b[2] == 0xED
            &&& b[3] == 0x75
            &&& b[4] == 0x0F
            &&& b[20] == 0x49
            &&& b[21] == 0xFF
            &&& b[22] == 0xCD
        }),
{
    lemma_field_lens(0, Fault::PointerUnderflow, i, exit_of(p) - (offset_of(p, i) + 20));
}

proof fn lemma_decode_move_left(p: Seq<Instruction>, i: int)
    requires
        0 <= i < p.len(),
        p[i] == Instruction::MoveLeft,
    ensures
        ({
            let code = emitted(p);
            let at = offset_of(p, i);
            &&& decode(code, at) == Some((Op::TestIndex, at + 3))
            &&& decode(code, at + 3) == Some((Op::Branch(Condition::NotZero, at + 20), at + 5))
            &&& decode(code, at + 20) == Some((Op::IndexDown, at + 23))
        }),
{
    let code = emitted(p);
    let at = offset_of(p, i);
    lemma_move_left_shape(p, i);
    lemma_block_placement(p, i);
    lemma_offsets_grow(p, i, i + 1);
    let whole = code.subrange(at, at + 23);
    assert(whole == block(p, i));
    assert(code[at] == whole[0] && code[at + 1] == whole[1] && code[at + 2] == whole[2]);
    assert(code[at + 3] == whole[3] && code[at + 4] == whole[4]);
    assert(code[at + 20] == whole[20] && code[at + 21] == whole[21] && code[at + 22] == whole[22]);
    reveal(decode);
}

#[verifier::rlimit(30)]
proof fn lemma_decode_output(p: Seq<Instruction>, i: int)
    requires
        0 <= i < p.len(),
        p[i] == Instruction::Output,
    ensures
        ({
            let code = emitted(p);
            let at = offset_of(p, i);
            &&& decode(code, at) == Some((Op::PassContext, at + 3))
            &&& decode(code, at + 3) == Some((Op::PassCell, at + 8))
            &&& decode(code, at + 8) == Some((Op::Call(Routine::Write), at + 11))
            &&& decode(code, at + 11) == Some((Op::TestResult, at + 14))
            &&& decode(code, at + 14) == Some((Op::Branch(Condition::Zero, at + 31), at + 16))
        }),
{
    reveal(decode);
    lemma_block_bytes(p, i);
}

#[verifier::rlimit(30)]
proof fn lemma_decode_input_call(p: Seq<Instruction>, i: int)
    requires
        0 <= i < p.len(),
        p[i] == Instruction::Input,
    ensures
        ({
            let code = emitted(p);
            let at = offset_of(p, i);
            &&& decode(code, at) == Some((Op::PassContext, at + 3))
            &&& decode(code, at + 3) == Some((Op::Call(Routine::Read), at + 6))
        }),
{
    reveal(decode);
    lemma_block_bytes(p, i);
}

#[verifier::rlimit(30)]
proof fn lemma_decode_input_measure(p: Seq<Instruction>, i: int)
    requires
        0 <= i < p.len(),
        p[i] == Instruction::Input,
    ensures
        ({
            let code = emitted(p);
            let at = offset_of(p, i);
            decode(code, at + 6) == Some((Op::MeasureResult(256), at + 12))
        }),
{
    reveal(decode);
    let code = emitted(p);
    let at = offset_of(p, i);
    lemma_block_bytes(p, i);
    let operand = code.subrange(at + 8, at + 12);
    assert(operand[0] == 0 && operand[1] == 1 && operand[2] == 0 && operand[3] == 0);
}

proof fn lemma_input_tail(p: Seq<Instruction>, i: int)
    requires
        0 <= i < p.len(),
        p[i] == Instruction::Input,
    ensures
        ({
            let b = block(p, i);
            &&& b.len() == 35
            &&& b[12] == 0x74
            &&& b[13] == 0x15
            &&& b[14] == 0x72
            &&& b[15] == 0x0F
            &&& b[31] == 0x43
            &&& b[32] == 0x88
            &&& b[33] == 0x04
            &&& b[34] == 0x2C
        }),
{
    lemma_field_lens(0, Fault::InputFailed, i, exit_of(p) - (offset_of(p, i) + 31));
}

#[verifier::rlimit(30)]
proof fn lemma_decode_input_store(p: Seq<Instruction>, i: int)
    requires
        0 <= i < p.len(),
        p[i] == Instruction::Input,
    ensures
        ({
            let code = emitted(p);
            let at = offset_of(p, i);
            &&& decode(code, at + 12) == Some((Op::Branch(Condition::Zero, at + 35), at + 14))
            &&& decode(code, at + 14) == Some((Op::Branch(Condition::Below, at + 31), at + 16))
            &&& decode(code, at + 31) == Some((Op::StoreCell, at + 35))
        }),
{
    let code = emitted(p);
    let at = offset_of(p, i);
    lemma_input_tail(p, i);
    lemma_block_placement(p, i);
    lemma_offsets_grow(p, i, i + 1);
    let whole = code.subrange(at, at + 35);
    assert(whole == block(p, i));
    assert(code[at + 12] == whole[12] && code[at + 13] == whole[13]);
    assert(code[at + 14] == whole[14] && code[at + 15] == whole[15]);
    assert(code[at + 31] == whole[31] && code[at + 32] == whole[32]);
    assert(code[at + 33] == whole[33] && code[at + 34] == whole[34]);
    reveal(decode);
}

proof fn lemma_increment(p: Seq<Instruction>, host: Host, w: World, s: Native) -> (k: nat)
    requires
        simulating(p, w, s),
        p[w.config.ip] == Instruction::Increment,
    ensures
        corresponds(p, step(p, host.input, w), native_run(emitted(p), host, s, k)),
{
    lemma_decode_arithmetic(p, w.config.ip);
    lemma_block_bytes(p, w.config.ip);
    reveal_with_fuel(native_run, 2);
    1
}

proof fn lemma_decrement(p: Seq<Instruction>, host: Host, w: World, s: Native) -> (k: nat)
    requires
        simulating(p, w, s),
        p[w.config.ip] == Instruction::Decrement,
    ensures
        corresponds(p, step(p, host.input, w), native_run(emitted(p), host, s, k)),
{
    lemma_decode_arithmetic(p, w.config.ip);
    lemma_block_bytes(p, w.config.ip);
    reveal_with_fuel(native_run, 2);
    1
}

proof fn lemma_loop_start(p: Seq<Instruction>, host: Host, w: World, s: Native) -> (k: nat)
    requires
        simulating(p, w, s),
        p[w.config.ip] is LoopStart,
    ensures
        corresponds(p, step(p, host.input, w), native_run(emitted(p), host, s, k)),
{
    lemma_decode_loop_start(p, w.config.ip);
    lemma_loop_start_lands(p, w.config.ip);
    reveal_with_fuel(native_run, 3);
    2
}

proof fn lemma_loop_end(p: Seq<Instruction>, host: Host, w: World, s: Native) -> (k: nat)
    requires
        simulating(p, w, s),
        p[w.config.ip] is LoopEnd,
    ensures
        corresponds(p, step(p, host.input, w), native_run(emitted(p), host, s, k)),
{
    lemma_decode_loop_end(p, w.config.ip);
    reveal_with_fuel(native_run, 2);
    1
}

#[verifier::rlimit(30)]
proof fn lemma_move_right(p: Seq<Instruction>, host: Host, w: World, s: Native) -> (k: nat)
    requires
        simulating(p, w, s),
        p[w.config.ip] == Instruction::MoveRight,
    ensures
        corresponds(p, step(p, host.input, w), native_run(emitted(p), host, s, k)),
{
    let code = emitted(p);
    let at = s.pc;
    lemma_decode_move_right(p, w.config.ip);
    lemma_offsets_grow(p, w.config.ip, w.config.ip + 1);
    let s1 = native_step(code, host, s);
    let s2 = native_step(code, host, s1);
    let s3 = native_step(code, host, s2);
    if w.config.machine.pointer + 1 < w.config.machine.cells.len() {
        assert(s3.pc == at + 18);
        reveal_with_fuel(native_run, 4);
        3
    } else {
        assert(s3.pc == at + 9);
        let s4 = native_step(code, host, s3);
        assert(s4.saved.len() == 3);
        let s5 = native_step(code, host, s4);
        assert(s5.pc == at + 15);
        assert(s5.saved[1] == Register::R12);
        let s6 = native_step(code, host, s5);
        assert(s6.pc == at + 18);
        reveal_with_fuel(native_run, 7);
        6
    }
}

proof fn lemma_move_left(p: Seq<Instruction>, host: Host, w: World, s: Native) -> (k: nat)
    requires
        simulating(p, w, s),
        p[w.config.ip] == Instruction::MoveLeft,
        w.config.machine.pointer > 0,
    ensures
        corresponds(p, step(p, host.input, w), native_run(emitted(p), host, s, k)),
{
    let code = emitted(p);
    let at = s.pc;
    lemma_decode_move_left(p, w.config.ip);
    lemma_offsets_grow(p, w.config.ip, w.config.ip + 1);
    let s1 = native_step(code, host, s);
    let s2 = native_step(code, host, s1);
    assert(s2.pc == at + 20);
    reveal_with_fuel(native_run, 4);
    3
}

#[verifier::rlimit(30)]
proof fn lemma_output(p: Seq<Instruction>, host: Host, w: World, s: Native) -> (k: nat)
    requires
        simulating(p, w, s),
        p[w.config.ip] == Instruction::Output,
        failure(p, host, w) is None,
    ensures
        corresponds(p, step(p, host.input, w), native_run(emitted(p), host, s, k)),
{
    let code = emitted(p);
    let at = s.pc;
    lemma_decode_output(p, w.config.ip);
    lemma_offsets_grow(p, w.config.ip, w.config.ip + 1);
    let s1 = native_step(code, host, s);
    let s2 = native_step(code, host, s1);
    assert(s2.saved.len() == 3);
    let s3 = native_step(code, host, s2);
    assert(s3.pc == at + 11);
    let s4 = native_step(code, host, s3);
    let s5 = native_step(code, host, s4);
    assert(s5.pc == at + 31);
    reveal_with_fuel(native_run, 6);
    5
}

#[verifier::rlimit(30)]
proof fn lemma_input(p: Seq<Instruction>, host: Host, w: World, s: Native) -> (k: nat)
    requires
        simulating(p, w, s),
        p[w.config.ip] == Instruction::Input,
        failure(p, host, w) is None,
    ensures
        corresponds(p, step(p, host.input, w), native_run(emitted(p), host, s, k)),
{
    let code = emitted(p);
    let at = s.pc;
    lemma_decode_input_call(p, w.config.ip);
    lemma_decode_input_measure(p, w.config.ip);
    lemma_decode_input_store(p, w.config.ip);
    lemma_offsets_grow(p, w.config.ip, w.config.ip + 1);
    let s1 = native_step(code, host, s);
    assert(s1.saved.len() == 3);
    let s2 = native_step(code, host, s1);
    assert(s2.pc == at + 6);
    let s3 = native_step(code, host, s2);
    let s4 = native_step(code, host, s3);
    if 0 <= w.consumed < host.input.len() {
        assert(s4.pc == at + 14);
        let s5 = native_step(code, host, s4);
        assert(s5.pc == at + 31);
        let s6 = native_step(code, host, s5);
        assert(s6.pc == at + 35);
        reveal_with_fuel(native_run, 7);
        6
    } else {
        assert(s4.pc == at + 35);
        reveal_with_fuel(native_run, 5);
        4
    }
}

/// One instruction of the interpreter is a few instructions of the
/// processor: from corresponding states both come to corresponding states.
pub proof fn lemma_instruction_simulated(
    p: Seq<Instruction>,
    host: Host,
    w: World,
    s: Native,
) -> (k: nat)
    requires
        simulating(p, w, s),
        failure(p, host, w) is None,
    ensures
        corresponds(p, step(p, host.input, w), native_run(emitted(p), host, s, k)),
{
    match p[w.config.ip] {
        Instruction::MoveRight => lemma_move_right(p, host, w, s),
        Instruction::MoveLeft => lemma_move_left(p, host, w, s),
        Instruction::Increment => lemma_increment(p, host, w, s),
        Instruction::Decrement => lemma_decrement(p, host, w, s),
        Instruction::Output => lemma_output(p, host, w, s),
        Instruction::Input => lemma_input(p, host, w, s),
        Instruction::LoopStart(_) => lemma_loop_start(p, host, w, s),
        Instruction::LoopEnd(_) => lemma_loop_end(p, host, w, s),
    }
}

proof fn lemma_frame_bytes(p: Seq<Instruction>)
    ensures
        forall|x: int| 0 <= x < 15 ==> #[trigger] emitted(p)[x] == prologue()[x],
        forall|x: int|
            offset_of(p, p.len() as int) <= x < code_len(p) ==> #[trigger] emitted(p)[x]
                == epilogue()[x - offset_of(p, p.len() as int)],
        emitted(p).len() == code_len(p),
        offset_of(p, p.len() as int) >= 15,
{
    lemma_body_len(p, p.len() as int);
    lemma_offsets_grow(p, 0, p.len() as int);
}

#[verifier::rlimit(30)]
proof fn lemma_decode_prologue(p: Seq<Instruction>)
    ensures
        ({
            let code = emitted(p);
            &&& decode(code, 0) == Some((Op::Push(Register::Rbx), 1int))
            &&& decode(code, 1) == Some((Op::Push(Register::R12), 3int))
            &&& decode(code, 3) == Some((Op::Push(Register::R13), 5int))
            &&& decode(code, 5) == Some((Op::KeepContext, 8int))
            &&& decode(code, 8) == Some((Op::LoadBase, 11int))
            &&& decode(code, 11) == Some((Op::LoadIndex, 15int))
        }),
{
    reveal(decode);
    lemma_frame_bytes(p);
}

#[verifier::rlimit(30)]
proof fn lemma_decode_epilogue(p: Seq<Instruction>)
    ensures
        ({
            let code = emitted(p);
            let at = offset_of(p, p.len() as int);
            &&& decode(code, at) == Some((Op::ClearResult, at + 2))
            &&& decode(code, at + 2) == Some((Op::StoreIndex, at + 6))
            &&& decode(code, at + 6) == Some((Op::Pop(Register::R13), at + 8))
            &&& decode(code, at + 8) == Some((Op::Pop(Register::R12), at + 10))
            &&& decode(code, at + 10) == Some((Op::Pop(Register::Rbx), at + 11))
            &&& decode(code, at + 11) == Some((Op::Return, at + 12))
        }),
{
    reveal(decode);
    lemma_frame_bytes(p);
}

/// The middle of three joined sequences.
proof fn lemma_middle(a: Seq<u8>, m: Seq<u8>, b: Seq<u8>)
    ensures
        (a + m + b).subrange(a.len() as int, (a.len() + m.len()) as int) == m,
        (a + m).subrange(a.len() as int, (a.len() + m.len()) as int) == m,
{
    assert((a + m + b).subrange(a.len() as int, (a.len() + m.len()) as int) =~= m);
    assert((a + m).subrange(a.len() as int, (a.len() + m.len()) as int) =~= m);
}

/// A part of a part is a part of the whole.
proof fn lemma_part_of_part(code: Seq<u8>, at: int, size: int, from: int, to: int)
    requires
        0 <= at,
        at + size <= code.len(),
        0 <= from <= to <= size,
    ensures
        code.subrange(at, at + size).subrange(from, to) == code.subrange(at + from, at + to),
{
    assert(code.subrange(at, at + size).subrange(from, to) =~= code.subrange(at + from, at + to));
}

proof fn lemma_stub_shape(fault: Fault, index: int, d: int)
    requires
        0 <= index < 0x1_0000_0000,
        -0x8000_0000 <= d < 0x8000_0000,
    ensures
        ({
            let stub = fault_stub(fault, index, d);
            &&& stub.len() == 15
            &&& stub[0] == 0x48
            &&& stub[1] == 0xB8
            &&& word_at(stub, 2) == index + 0x1_0000_0000 * fault_code(fault)
            &&& stub[10] == 0xE9
            &&& signed32(stub.subrange(11, 15)) == d
        }),
{
    reveal(fault_stub);
    reveal(le32);
    let stub = fault_stub(fault, index, d);
    let number = le32(index);
    let kind = le32(fault_code(fault));
    lemma_rel32_round_trip(d);
    assert(stub.subrange(11, 15) =~= rel32(d));
    assert(stub[2] == number[0] && stub[3] == number[1] && stub[4] == number[2] && stub[5]
        == number[3]);
    assert(stub[6] == kind[0] && stub[7] == kind[1] && stub[8] == kind[2] && stub[9] == kind[3]);
    assert(number[0] + 0x100 * number[1] + 0x1_0000 * number[2] + 0x100_0000 * number[3]
        == index);
    assert(kind[0] + 0x100 * kind[1] + 0x1_0000 * kind[2] + 0x100_0000 * kind[3] == fault_code(
        fault,
    ));
}

#[verifier::rlimit(30)]
proof fn lemma_decode_stub(code: Seq<u8>, base: int, fault: Fault, index: int, d: int)
    requires
        0 <= base,
        base + 15 <= code.len(),
        0 <= index < 0x1_0000_0000,
        -0x8000_0000 <= d < 0x8000_0000,
        code.subrange(base, base + 15) == fault_stub(fault, index, d),
    ensures
        decode(code, base) == Some(
            (Op::LoadResult(index + 0x1_0000_0000 * fault_code(fault)), base + 10),
        ),
        decode(code, base + 10) == Some((Op::Branch(Condition::Always, base + 15 + d), base + 15)),
{
    reveal(decode);
    let stub = fault_stub(fault, index, d);
    let part = code.subrange(base, base + 15);
    lemma_stub_shape(fault, index, d);
    assert(code[base] == part[0]);
    assert(code[base + 1] == part[1]);
    assert(code[base + 2] == part[2]);
    assert(code[base + 3] == part[3]);
    assert(code[base + 4] == part[4]);
    assert(code[base + 5] == part[5]);
    assert(code[base + 6] == part[6]);
    assert(code[base + 7] == part[7]);
    assert(code[base + 8] == part[8]);
    assert(code[base + 9] == part[9]);
    assert(code[base + 10] == part[10]);
    assert(word_at(code, base + 2) == word_at(stub, 2));
    assert(code.subrange(base + 11, base + 15) =~= stub.subrange(11, 15));
}

#[verifier::rlimit(30)]
proof fn lemma_decode_underflow(p: Seq<Instruction>, i: int)
    requires
        code_len(p) <= CODE_LIMIT,
        0 <= i < p.len(),
        p[i] == Instruction::MoveLeft,
    ensures
        ({
            let code = emitted(p);
            let at = offset_of(p, i);
            &&& decode(code, at + 5) == Some(
                (
                    Op::LoadResult(
                        status_word(
                            RuntimeError { fault: Fault::PointerUnderflow, at: i as usize },
                        ),
                    ),
                    at + 15,
                ),
            )
            &&& decode(code, at + 15) == Some((Op::Branch(Condition::Always, exit_of(p)), at + 20))
        }),
{
    let code = emitted(p);
    let at = offset_of(p, i);
    lemma_block_placement(p, i);
    lemma_offsets_grow(p, i, i + 1);
    lemma_offsets_grow(p, i + 1, p.len() as int);
    lemma_offsets_grow(p, 0, i);
    lemma_offsets_grow(p, 0, p.len() as int);
    let d = exit_of(p) - (at + 20);
    let stub = fault_stub(Fault::PointerUnderflow, i, d);
    lemma_field_lens(0, Fault::PointerUnderflow, i, d);
    lemma_middle(seq![0x4Du8, 0x85, 0xED, 0x75, 0x0F], stub, seq![0x49u8, 0xFF, 0xCD]);
    lemma_part_of_part(code, at, 23, 5, 20);
    lemma_decode_stub(code, at + 5, Fault::PointerUnderflow, i, d);
}

/// The processor has returned what the interpreter reports, and left the
/// tape, the pointer and the endpoints as the interpreter leaves them.
pub open spec fn returned_as(p: Seq<Instruction>, host: Host, w: World, s: Native) -> bool {
    &&& s.phase == Phase::Returned(
        match failure(p, host, w) {
            Some(error) => status_word(error),
            None => 0,
        },
    )
    &&& s.tape == w.config.machine.cells
    &&& s.pointer == w.config.machine.pointer
    &&& s.consumed == w.consumed
    &&& s.output == w.output
}

#[verifier::rlimit(30)]
proof fn lemma_prologue(p: Seq<Instruction>, host: Host, s: Native, w: World)
    requires
        entered(s, w.config.machine.cells, w.config.machine.pointer, w.output),
        w.config.ip == 0,
        w.consumed == 0,
    ensures
        corresponds(p, w, native_run(emitted(p), host, s, 6)),
{
    let code = emitted(p);
    lemma_decode_prologue(p);
    let s1 = native_step(code, host, s);
    let s2 = native_step(code, host, s1);
    let s3 = native_step(code, host, s2);
    assert(s3.saved =~= saved_registers());
    assert(s3.saved[0] == Register::Rbx);
    assert(s3.saved[1] == Register::R12);
    assert(s3.saved[2] == Register::R13);
    let s4 = native_step(code, host, s3);
    assert(s4.pc == 8);
    let s5 = native_step(code, host, s4);
    assert(s5.pc == 11);
    let s6 = native_step(code, host, s5);
    assert(s6.pc == 15);
    reveal_with_fuel(native_run, 7);
}

#[verifier::rlimit(30)]
proof fn lemma_exit(p: Seq<Instruction>, host: Host, s: Native, word: int)
    requires
        s.phase is Running,
        s.pc == exit_of(p),
        s.context_kept,
        s.index is Some,
        s.result == Some(word),
        s.saved == saved_registers(),
    ensures
        ({
            let t = native_run(emitted(p), host, s, 5);
            &&& t.phase == Phase::Returned(word)
            &&& t.tape == s.tape
            &&& t.pointer == s.index->0
            &&& t.consumed == s.consumed
            &&& t.output == s.output
        }),
{
    let code = emitted(p);
    let at = offset_of(p, p.len() as int);
    lemma_decode_epilogue(p);
    let s1 = native_step(code, host, s);
    assert(s1.pc == at + 6);
    let s2 = native_step(code, host, s1);
    assert(s2.saved =~= seq![Register::Rbx, Register::R12]);
    assert(s2.pc == at + 8);
    let s3 = native_step(code, host, s2);
    assert(s3.saved =~= seq![Register::Rbx]);
    assert(s3.pc == at + 10);
    let s4 = native_step(code, host, s3);
    assert(s4.saved =~= Seq::<Register>::empty());
    assert(s4.pc == at + 11);
    let s5 = native_step(code, host, s4);
    reveal_with_fuel(native_run, 6);
}

proof fn lemma_epilogue(p: Seq<Instruction>, host: Host, w: World, s: Native)
    requires
        corresponds(p, w, s),
        w.config.ip == p.len(),
    ensures
        returned_as(p, host, w, native_run(emitted(p), host, s, 6)),
{
    let code = emitted(p);
    lemma_decode_epilogue(p);
    let s1 = native_step(code, host, s);
    lemma_exit(p, host, s1, 0);
    lemma_native_run_in_pieces(code, host, s, 1, 5);
    reveal_with_fuel(native_run, 2);
}

#[verifier::rlimit(30)]
proof fn lemma_decode_refusal(p: Seq<Instruction>, i: int)
    requires
        code_len(p) <= CODE_LIMIT,
        0 <= i < p.len(),
        p[i] == Instruction::Output || p[i] == Instruction::Input,
    ensures
        ({
            let code = emitted(p);
            let at = offset_of(p, i);
            let fault = if p[i] == Instruction::Output {
                Fault::OutputFailed
            } else {
                Fault::InputFailed
            };
            &&& decode(code, at + 16) == Some(
                (Op::LoadResult(status_word(RuntimeError { fault, at: i as usize })), at + 26),
            )
            &&& decode(code, at + 26) == Some((Op::Branch(Condition::Always, exit_of(p)), at + 31))
        }),
{
    let code = emitted(p);
    let at = offset_of(p, i);
    let fault = if p[i] == Instruction::Output {
        Fault::OutputFailed
    } else {
        Fault::InputFailed
    };
    lemma_block_placement(p, i);
    lemma_offsets_grow(p, i, i + 1);
    lemma_offsets_grow(p, i + 1, p.len() as int);
    lemma_offsets_grow(p, 0, i);
    lemma_offsets_grow(p, 0, p.len() as int);
    let d = exit_of(p) - (at + 31);
    let stub = fault_stub(fault, i, d);
    lemma_field_lens(0, fault, i, d);
    if p[i] == Instruction::Output {
        lemma_middle(
            seq![
                0x48u8, 0x89, 0xDF, 0x43, 0x0F, 0xB6, 0x34, 0x2C, 0xFF, 0x53, 0x18, 0x48, 0x85, 0xC0,
                0x74, 0x0F,
            ],
            stub,
            Seq::empty(),
        );
    } else {
        lemma_middle(
            seq![
                0x48u8, 0x89, 0xDF, 0xFF, 0x53, 0x20, 0x48, 0x3D, 0x00, 0x01, 0x00, 0x00, 0x74, 0x15,
                0x72, 0x0F,
            ],
            stub,
            seq![0x43u8, 0x88, 0x04, 0x2C],
        );
    }
    lemma_part_of_part(code, at, block_len(p[i]), 16, 31);
    lemma_decode_stub(code, at + 16, fault, i, d);
}

/// The state in which the code of an instruction gives up: all is as at
/// the beginning of that code, but for the program counter and the
/// registers that a call may change.
spec fn giving_up(w: World, s: Native, pc: int) -> bool {
    &&& s.phase is Running
    &&& s.pc == pc
    &&& s.context_kept
    &&& s.index == Some(w.config.machine.pointer)
    &&& s.saved == saved_registers()
    &&& s.tape == w.config.machine.cells
    &&& s.consumed == w.consumed
    &&& s.output == w.output
}

/// From its stub, a failure returns its status word in seven instructions.
proof fn lemma_stub_returns(
    p: Seq<Instruction>,
    host: Host,
    w: World,
    s: Native,
    error: RuntimeError,
)
    requires
        giving_up(w, s, s.pc),
        failure(p, host, w) == Some(error),
        decode(emitted(p), s.pc) == Some((Op::LoadResult(status_word(error)), s.pc + 10)),
        decode(emitted(p), s.pc + 10) == Some(
            (Op::Branch(Condition::Always, exit_of(p)), s.pc + 15),
        ),
    ensures
        returned_as(p, host, w, native_run(emitted(p), host, s, 7)),
{
    let code = emitted(p);
    let s1 = native_step(code, host, s);
    assert(s1.pc == s.pc + 10);
    let s2 = native_step(code, host, s1);
    assert(s2.pc == exit_of(p));
    lemma_exit(p, host, s2, status_word(error));
    lemma_native_run_in_pieces(code, host, s, 2, 5);
    reveal_with_fuel(native_run, 3);
}

#[verifier::rlimit(30)]
proof fn lemma_output_gives_up(p: Seq<Instruction>, host: Host, w: World, s: Native)
    requires
        simulating(p, w, s),
        p[w.config.ip] == Instruction::Output,
        failure(p, host, w) is Some,
    ensures
        giving_up(w, native_run(emitted(p), host, s, 5), s.pc + 16),
{
    let code = emitted(p);
    let at = s.pc;
    lemma_decode_output(p, w.config.ip);
    let s1 = native_step(code, host, s);
    let s2 = native_step(code, host, s1);
    assert(s2.saved.len() == 3);
    let s3 = native_step(code, host, s2);
    assert(s3.pc == at + 11);
    assert(s3.result == Some(1int));
    let s4 = native_step(code, host, s3);
    let s5 = native_step(code, host, s4);
    assert(s5.pc == at + 16);
    reveal_with_fuel(native_run, 6);
}

#[verifier::rlimit(30)]
proof fn lemma_input_gives_up(p: Seq<Instruction>, host: Host, w: World, s: Native)
    requires
        simulating(p, w, s),
        p[w.config.ip] == Instruction::Input,
        failure(p, host, w) is Some,
    ensures
        giving_up(w, native_run(emitted(p), host, s, 5), s.pc + 16),
{
    let code = emitted(p);
    let at = s.pc;
    lemma_decode_input_call(p, w.config.ip);
    lemma_decode_input_measure(p, w.config.ip);
    lemma_decode_input_store(p, w.config.ip);
    let s1 = native_step(code, host, s);
    assert(s1.saved.len() == 3);
    let s2 = native_step(code, host, s1);
    assert(s2.pc == at + 6);
    assert(s2.result == Some(257int));
    let s3 = native_step(code, host, s2);
    let s4 = native_step(code, host, s3);
    assert(s4.pc == at + 14);
    let s5 = native_step(code, host, s4);
    assert(s5.pc == at + 16);
    reveal_with_fuel(native_run, 6);
}

proof fn lemma_move_left_gives_up(p: Seq<Instruction>, host: Host, w: World, s: Native)
    requires
        simulating(p, w, s),
        underflows(p, w.config),
    ensures
        giving_up(w, native_run(emitted(p), host, s, 2), s.pc + 5),
{
    let code = emitted(p);
    lemma_decode_move_left(p, w.config.ip);
    let s1 = native_step(code, host, s);
    let s2 = native_step(code, host, s1);
    assert(s2.pc == s.pc + 5);
    reveal_with_fuel(native_run, 3);
}

/// Where the interpreter fails, the processor returns the status word
/// of that failure.
proof fn lemma_failure_simulated(p: Seq<Instruction>, host: Host, w: World, s: Native) -> (k: nat)
    requires
        simulating(p, w, s),
        failure(p, host, w) is Some,
    ensures
        returned_as(p, host, w, native_run(emitted(p), host, s, k)),
{
    let code = emitted(p);
    let i = w.config.ip;
    let error = failure(p, host, w)->0;
    let reach: nat = if underflows(p, w.config) {
        lemma_move_left_gives_up(p, host, w, s);
        lemma_decode_underflow(p, i);
        2
    } else if p[i] == Instruction::Output {
        lemma_output_gives_up(p, host, w, s);
        lemma_decode_refusal(p, i);
        5
    } else {
        lemma_input_gives_up(p, host, w, s);
        lemma_decode_refusal(p, i);
        5
    };
    lemma_stub_returns(p, host, w, native_run(code, host, s, reach), error);
    lemma_native_run_in_pieces(code, host, s, reach, 7);
    reach + 7
}

/// The interpreter has come to an end: the program is over or has failed.
pub open spec fn ended(p: Seq<Instruction>, host: Host, w: World) -> bool {
    halted(p, w.config) || failure(p, host, w) is Some
}

/// From corresponding states, every run of the interpreter is matched by
/// a run of the processor: where the interpreter has come to an end, the
/// processor has returned the same; where it has not, the two correspond.
proof fn lemma_runs_agree(p: Seq<Instruction>, host: Host, w: World, s: Native, fuel: nat) -> (g:
    nat)
    requires
        linked(p),
        code_len(p) <= CODE_LIMIT,
        w.config.machine.valid(),
        w.config.machine.cells.len() + fuel < tape_limit(),
        0 <= w.config.ip <= p.len(),
        corresponds(p, w, s),
    ensures
        ({
            let end = served_run(p, host, w, fuel);
            let t = native_run(emitted(p), host, s, g);
            if ended(p, host, end) {
                returned_as(p, host, end, t)
            } else {
                corresponds(p, end, t)
            }
        }),
    decreases fuel,
{
    if halted(p, w.config) {
        lemma_epilogue(p, host, w, s);
        6
    } else if failure(p, host, w) is Some {
        lemma_failure_simulated(p, host, w, s)
    } else if fuel == 0 {
        0
    } else {
        let k = lemma_instruction_simulated(p, host, w, s);
        let w1 = step(p, host.input, w);
        let s1 = native_run(emitted(p), host, s, k);
        lemma_step_keeps_valid(p, host.input, w);
        let g = lemma_runs_agree(p, host, w1, s1, (fuel - 1) as nat);
        lemma_native_run_in_pieces(emitted(p), host, s, k, g);
        k + g
    }
}

/// The world in which a program starts on `machine`.
pub open spec fn start(machine: Machine, output: Seq<u8>) -> World {
    World { config: Config { machine, ip: 0 }, consumed: 0, output }
}

/// The native code keeps pace with the interpreter.
///
/// Whatever the interpreter has done after `fuel` instructions from the
/// first, the processor has done after `g` of its own: it stands at the
/// code of the instruction that the interpreter does next, on the same
/// tape, with the same output written and the same input taken. So a
/// program that runs forever when interpreted never returns, and never
/// crashes, as native code.
pub proof fn lemma_native_code_keeps_pace(
    p: Seq<Instruction>,
    host: Host,
    machine: Machine,
    output: Seq<u8>,
    s: Native,
    fuel: nat,
) -> (g: nat)
    requires
        linked(p),
        code_len(p) <= CODE_LIMIT,
        machine.valid(),
        machine.cells.len() + fuel < tape_limit(),
        entered(s, machine.cells, machine.pointer, output),
    ensures
        ({
            let end = served_run(p, host, start(machine, output), fuel);
            let t = native_run(emitted(p), host, s, g);
            if ended(p, host, end) {
                returned_as(p, host, end, t)
            } else {
                corresponds(p, end, t)
            }
        }),
{
    let w = start(machine, output);
    lemma_prologue(p, host, s, w);
    let s1 = native_run(emitted(p), host, s, 6);
    let g = lemma_runs_agree(p, host, w, s1, fuel);
    lemma_native_run_in_pieces(emitted(p), host, s, 6, g);
    6 + g
}

/// What the host reads from the status word when the interpreter stops
/// in the world `w`.
pub open spec fn expected_exit(p: Seq<Instruction>, host: Host, w: World) -> Exit {
    match failure(p, host, w) {
        Some(error) => Exit::Failed(error),
        None => Exit::Finished,
    }
}

/// The native code does what the interpreter does.
///
/// Take a validated program whose code fits, endpoints that may fail, and
/// a run of the interpreter from the first instruction that comes to an
/// end: at the end of the program, at a pointer underflow, or where an
/// endpoint fails. Then the emitted code, called on the same tape,
/// pointer and endpoints, returns after `g` of its instructions without a
/// crash. It has written the same output and taken the same input, it
/// leaves the same tape and pointer, and its status word reads as the
/// same outcome, with the same failing instruction.
///
/// The processor is the model of the `processor` module, and the tape
/// stays within what a 64-bit index can address.
pub proof fn lemma_native_code_agrees(
    p: Seq<Instruction>,
    host: Host,
    machine: Machine,
    output: Seq<u8>,
    s: Native,
    fuel: nat,
) -> (g: nat)
    requires
        linked(p),
        code_len(p) <= CODE_LIMIT,
        machine.valid(),
        machine.cells.len() + fuel < tape_limit(),
        entered(s, machine.cells, machine.pointer, output),
        ended(p, host, served_run(p, host, start(machine, output), fuel)),
    ensures
        ({
            let end = served_run(p, host, start(machine, output), fuel);
            let t = native_run(emitted(p), host, s, g);
            &&& t.phase matches Phase::Returned(word)
            &&& 0 <= word <= u64::MAX
            &&& exit_for(word as u64) == expected_exit(p, host, end)
            &&& t.output == end.output
            &&& t.consumed == end.consumed
            &&& t.tape == end.config.machine.cells
            &&& t.pointer == end.config.machine.pointer
        }),
{
    let g = lemma_native_code_keeps_pace(p, host, machine, output, s, fuel);
    let end = served_run(p, host, start(machine, output), fuel);
    match failure(p, host, end) {
        Some(error) => {
            lemma_offsets_grow(p, 0, p.len() as int);
            lemma_status_round_trip(error);
        },
        None => {},
    }
    g
}

/// The same for what `Executor::run` computes, on endpoints in memory
/// that do not fail: the native code returns what `run` reports, and the
/// session and the output are left as `run` leaves them.
pub proof fn lemma_native_code_agrees_with_run(
    p: Seq<Instruction>,
    input: Seq<u8>,
    machine: Machine,
    output: Seq<u8>,
    s: Native,
    fuel: nat,
) -> (g: nat)
    requires
        linked(p),
        code_len(p) <= CODE_LIMIT,
        machine.valid(),
        machine.cells.len() + fuel < tape_limit(),
        entered(s, machine.cells, machine.pointer, output),
        ({
            let end = run(p, input, start(machine, output), fuel);
            halted(p, end.config) || underflows(p, end.config)
        }),
    ensures
        ({
            let end = run(p, input, start(machine, output), fuel);
            let t = native_run(emitted(p), unfailing(input), s, g);
            &&& t.phase matches Phase::Returned(word)
            &&& 0 <= word <= u64::MAX
            &&& exit_for(word as u64) == (match report(p, end) {
                Ok(_) => Exit::Finished,
                Err(error) => Exit::Failed(error),
            })
            &&& t.output == end.output
            &&& t.consumed == end.consumed
            &&& t.tape == end.config.machine.cells
            &&& t.pointer == end.config.machine.pointer
        }),
{
    let host = unfailing(input);
    let end = run(p, input, start(machine, output), fuel);
    lemma_unfailing_run(p, input, start(machine, output), fuel);
    lemma_unfailing_run(p, input, end, 0);
    lemma_native_code_agrees(p, host, machine, output, s, fuel)
}

} // verus!
