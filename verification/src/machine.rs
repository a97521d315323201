use crate::error::{Fault, RuntimeError};
use crate::instruction::Instruction;
use vstd::prelude::*;

verus! {

/// The tape and its pointer as mathematical values. The cells are those
/// that have been reached so far; every cell beyond them holds zero and
/// comes into being when the pointer first moves onto it.
pub struct Machine {
    pub cells: Seq<u8>,
    pub pointer: int,
}

impl Machine {
    /// The pointer stands on a cell.
    pub open spec fn valid(self) -> bool {
        0 <= self.pointer < self.cells.len()
    }

    /// One zero cell, the pointer on it.
    pub open spec fn fresh() -> Machine {
        Machine { cells: seq![0u8], pointer: 0 }
    }

    /// The value under the pointer.
    pub open spec fn current(self) -> u8 {
        self.cells[self.pointer]
    }

    /// The machine with `value` under the pointer.
    pub open spec fn store(self, value: u8) -> Machine {
        Machine { cells: self.cells.update(self.pointer, value), pointer: self.pointer }
    }

    /// One added to the current cell, modulo 256.
    pub open spec fn incremented(self) -> Machine {
        self.store(((self.current() + 1) % 256) as u8)
    }

    /// One taken from the current cell, modulo 256.
    pub open spec fn decremented(self) -> Machine {
        self.store(((self.current() + 255) % 256) as u8)
    }

    /// The pointer one cell further right, on a new zero cell if it leaves
    /// the cells reached so far.
    pub open spec fn moved_right(self) -> Machine {
        Machine {
            cells: if self.pointer + 1 < self.cells.len() {
                self.cells
            } else {
                self.cells.push(0u8)
            },
            pointer: self.pointer + 1,
        }
    }

    /// The pointer one cell further left.
    pub open spec fn moved_left(self) -> Machine {
        Machine { cells: self.cells, pointer: self.pointer - 1 }
    }
}

/// A machine in the middle of a program: `ip` is the index of the
/// instruction that comes next.
pub struct Config {
    pub machine: Machine,
    pub ip: int,
}

/// The program has run to its end.
pub open spec fn halted(p: Seq<Instruction>, c: Config) -> bool {
    c.ip < 0 || c.ip >= p.len()
}

/// The next instruction would move the pointer left of the first cell.
pub open spec fn underflows(p: Seq<Instruction>, c: Config) -> bool {
    !halted(p, c) && p[c.ip] == Instruction::MoveLeft && c.machine.pointer <= 0
}

/// The next instruction needs an endpoint.
pub open spec fn awaits_endpoint(p: Seq<Instruction>, c: Config) -> bool {
    !halted(p, c) && (p[c.ip] == Instruction::Output || p[c.ip] == Instruction::Input)
}

/// The machine cannot go on without its host.
pub open spec fn blocked(p: Seq<Instruction>, c: Config) -> bool {
    halted(p, c) || underflows(p, c) || awaits_endpoint(p, c)
}

/// One instruction that needs no endpoint. A `LoopStart` on a zero cell
/// goes to the instruction after its partner; a `LoopEnd` goes back to its
/// partner, where the cell is tested again.
pub open spec fn quiet_step(p: Seq<Instruction>, c: Config) -> Config {
    match p[c.ip] {
        Instruction::MoveRight => Config { machine: c.machine.moved_right(), ip: c.ip + 1 },
        Instruction::MoveLeft => Config { machine: c.machine.moved_left(), ip: c.ip + 1 },
        Instruction::Increment => Config { machine: c.machine.incremented(), ip: c.ip + 1 },
        Instruction::Decrement => Config { machine: c.machine.decremented(), ip: c.ip + 1 },
        Instruction::LoopStart(target) => Config {
            machine: c.machine,
            ip: if c.machine.current() == 0 {
                target + 1
            } else {
                c.ip + 1
            },
        },
        Instruction::LoopEnd(target) => Config { machine: c.machine, ip: target as int },
        Instruction::Output => c,
        Instruction::Input => c,
    }
}

/// At most `fuel` instructions, stopping early where the machine is blocked.
pub open spec fn run_quiet(p: Seq<Instruction>, c: Config, fuel: nat) -> Config
    decreases fuel,
{
    if fuel == 0 || blocked(p, c) {
        c
    } else {
        run_quiet(p, quiet_step(p, c), (fuel - 1) as nat)
    }
}

/// What the host tells a machine that it resumes.
#[derive(Clone, Copy, Debug, PartialEq, Eq, Structural)]
pub enum Event {
    /// Nothing happened; go on.
    Resume,
    /// The byte of the pending `Output` was written.
    Written,
    /// The output endpoint refused the byte of the pending `Output`.
    WriteFailed,
    /// The byte that the pending `Input` asked for.
    Byte(u8),
    /// The input has ended.
    EndOfInput,
    /// The input endpoint failed.
    ReadFailed,
}

/// Why a machine came back to its host.
#[derive(Clone, Copy, Debug, PartialEq, Eq, Structural)]
pub enum Signal {
    /// The program has run to its end.
    Halted,
    /// The next instruction is an `Output`: write this byte, then resume
    /// with `Written` or `WriteFailed`.
    Write(u8),
    /// The next instruction is an `Input`: read a byte, then resume with
    /// `Byte`, `EndOfInput` or `ReadFailed`.
    Read,
    /// The program has failed and cannot go on.
    Fault(RuntimeError),
    /// The step budget is used up; resume to go on.
    Suspended,
}

/// The error that an event raises: a failed write at an `Output`, a failed
/// read at an `Input`.
pub open spec fn refusal(p: Seq<Instruction>, c: Config, event: Event) -> Option<RuntimeError> {
    if halted(p, c) {
        None
    } else if p[c.ip] == Instruction::Output && event == Event::WriteFailed {
        Some(RuntimeError { fault: Fault::OutputFailed, at: c.ip as usize })
    } else if p[c.ip] == Instruction::Input && event == Event::ReadFailed {
        Some(RuntimeError { fault: Fault::InputFailed, at: c.ip as usize })
    } else {
        None
    }
}

/// The machine once it has taken in an event. `Written` completes a
/// pending `Output`; `Byte` completes a pending `Input` and stores the
/// byte; `EndOfInput` completes it and leaves the cell as it is. An event
/// that answers nothing changes nothing.
pub open spec fn deliver(p: Seq<Instruction>, c: Config, event: Event) -> Config {
    if halted(p, c) {
        c
    } else {
        match (p[c.ip], event) {
            (Instruction::Output, Event::Written) => Config { machine: c.machine, ip: c.ip + 1 },
            (Instruction::Input, Event::Byte(b)) => Config {
                machine: c.machine.store(b),
                ip: c.ip + 1,
            },
            (Instruction::Input, Event::EndOfInput) => Config { machine: c.machine, ip: c.ip + 1 },
            _ => c,
        }
    }
}

/// Where a machine stands after it was resumed with an event and a budget.
pub open spec fn resumed(p: Seq<Instruction>, c: Config, event: Event, fuel: nat) -> Config {
    if refusal(p, c, event) is Some {
        c
    } else {
        run_quiet(p, deliver(p, c, event), fuel)
    }
}

/// What a machine that stands at `c` needs from its host.
pub open spec fn signal_at(p: Seq<Instruction>, c: Config) -> Signal {
    if halted(p, c) {
        Signal::Halted
    } else if p[c.ip] == Instruction::Output {
        Signal::Write(c.machine.current())
    } else if p[c.ip] == Instruction::Input {
        Signal::Read
    } else if underflows(p, c) {
        Signal::Fault(RuntimeError { fault: Fault::PointerUnderflow, at: c.ip as usize })
    } else {
        Signal::Suspended
    }
}

/// The signal that a resumed machine comes back with.
pub open spec fn signal_after(p: Seq<Instruction>, c: Config, event: Event, fuel: nat) -> Signal {
    match refusal(p, c, event) {
        Some(error) => Signal::Fault(error),
        None => signal_at(p, resumed(p, c, event, fuel)),
    }
}

/// A machine together with its endpoints held in memory: how many input
/// bytes it has taken and what it has written.
pub struct World {
    pub config: Config,
    pub consumed: int,
    pub output: Seq<u8>,
}

/// One instruction with the endpoints in memory. `Output` appends the
/// current cell to the output. `Input` stores the next input byte, or
/// leaves the cell as it is when the input has ended.
pub open spec fn step(p: Seq<Instruction>, input: Seq<u8>, w: World) -> World {
    let c = w.config;
    match p[c.ip] {
        Instruction::Output => World {
            config: Config { machine: c.machine, ip: c.ip + 1 },
            consumed: w.consumed,
            output: w.output.push(c.machine.current()),
        },
        Instruction::Input => if 0 <= w.consumed < input.len() {
            World {
                config: Config { machine: c.machine.store(input[w.consumed]), ip: c.ip + 1 },
                consumed: w.consumed + 1,
                output: w.output,
            }
        } else {
            World {
                config: Config { machine: c.machine, ip: c.ip + 1 },
                consumed: w.consumed,
                output: w.output,
            }
        },
        _ => World { config: quiet_step(p, c), consumed: w.consumed, output: w.output },
    }
}

/// At most `fuel` instructions with the endpoints in memory, stopping
/// early at the end of the program or where the pointer would underflow.
pub open spec fn run(p: Seq<Instruction>, input: Seq<u8>, w: World, fuel: nat) -> World
    decreases fuel,
{
    if fuel == 0 || halted(p, w.config) || underflows(p, w.config) {
        w
    } else {
        run(p, input, step(p, input, w), (fuel - 1) as nat)
    }
}

/// Endpoints in memory that may fail.
pub struct Host {
    /// The bytes that the input hands out, in order.
    pub input: Seq<u8>,
    /// The input fails once this many bytes were taken; `None`: it never does.
    pub breaks_at: Option<int>,
    /// The output fails once it holds this many bytes; `None`: it never does.
    pub capacity: Option<int>,
}

/// Endpoints that never fail.
pub open spec fn unfailing(input: Seq<u8>) -> Host {
    Host { input, breaks_at: None, capacity: None }
}

/// The error that ends a program in the world `w`, if there is one: the
/// pointer would leave the tape on the left, the output takes no more, or
/// the input is broken.
pub open spec fn failure(p: Seq<Instruction>, host: Host, w: World) -> Option<RuntimeError> {
    let c = w.config;
    if halted(p, c) {
        None
    } else if underflows(p, c) {
        Some(RuntimeError { fault: Fault::PointerUnderflow, at: c.ip as usize })
    } else if p[c.ip] == Instruction::Output && host.capacity is Some && w.output.len()
        >= host.capacity->0 {
        Some(RuntimeError { fault: Fault::OutputFailed, at: c.ip as usize })
    } else if p[c.ip] == Instruction::Input && host.breaks_at is Some && w.consumed
        >= host.breaks_at->0 {
        Some(RuntimeError { fault: Fault::InputFailed, at: c.ip as usize })
    } else {
        None
    }
}

/// At most `fuel` instructions on endpoints that may fail, stopping early
/// at the end of the program or at its failure.
pub open spec fn served_run(p: Seq<Instruction>, host: Host, w: World, fuel: nat) -> World
    decreases fuel,
{
    if fuel == 0 || halted(p, w.config) || failure(p, host, w) is Some {
        w
    } else {
        served_run(p, host, step(p, host.input, w), (fuel - 1) as nat)
    }
}

/// On endpoints that never fail, `served_run` is `run`, and the only
/// failure is the pointer underflow.
pub proof fn lemma_unfailing_run(p: Seq<Instruction>, input: Seq<u8>, w: World, fuel: nat)
    ensures
        served_run(p, unfailing(input), w, fuel) == run(p, input, w, fuel),
        failure(p, unfailing(input), w) is Some <==> underflows(p, w.config),
    decreases fuel,
{
    if fuel > 0 && !halted(p, w.config) && !underflows(p, w.config) {
        lemma_unfailing_run(p, input, step(p, input, w), (fuel - 1) as nat);
    }
}

/// The events of a failing endpoint raise the error that `failure` names:
/// what `resume` reports for `WriteFailed` and `ReadFailed` is what ends
/// a run on endpoints that fail.
pub proof fn lemma_failed_events_agree(p: Seq<Instruction>, host: Host, w: World)
    requires
        failure(p, host, w) is Some,
        !underflows(p, w.config),
    ensures
        signal_at(p, w.config) is Write ==> refusal(p, w.config, Event::WriteFailed) == failure(
            p,
            host,
            w,
        ),
        signal_at(p, w.config) is Read ==> refusal(p, w.config, Event::ReadFailed) == failure(
            p,
            host,
            w,
        ),
        signal_at(p, w.config) is Write || signal_at(p, w.config) is Read,
{
}

/// A budget may be spent in pieces: a run that was suspended and is taken
/// up again ends where one run on the whole budget ends.
pub proof fn lemma_run_in_pieces(p: Seq<Instruction>, input: Seq<u8>, w: World, a: nat, b: nat)
    ensures
        run(p, input, w, a + b) == run(p, input, run(p, input, w, a), b),
    decreases a,
{
    if a > 0 && !halted(p, w.config) && !underflows(p, w.config) {
        lemma_run_in_pieces(p, input, step(p, input, w), (a - 1) as nat, b);
    }
}

/// The same for a run between two calls on the endpoints.
pub proof fn lemma_run_quiet_in_pieces(p: Seq<Instruction>, c: Config, a: nat, b: nat)
    ensures
        run_quiet(p, c, a + b) == run_quiet(p, run_quiet(p, c, a), b),
    decreases a,
{
    if a > 0 && !blocked(p, c) {
        lemma_run_quiet_in_pieces(p, quiet_step(p, c), (a - 1) as nat, b);
    }
}

/// A host that serves the endpoints from memory takes, with each signal
/// and its answer, one `step`: it appends the byte of a `Write` and
/// answers `Written`; it answers a `Read` with the next input byte, or
/// with `EndOfInput` once the input is used up.
pub proof fn lemma_events_agree_with_step(p: Seq<Instruction>, input: Seq<u8>, w: World)
    requires
        !halted(p, w.config),
        !underflows(p, w.config),
    ensures
        signal_at(p, w.config) matches Signal::Write(byte) ==> step(p, input, w) == (World {
            config: deliver(p, w.config, Event::Written),
            consumed: w.consumed,
            output: w.output.push(byte),
        }),
        signal_at(p, w.config) == Signal::Read && 0 <= w.consumed < input.len() ==> step(
            p,
            input,
            w,
        ) == (World {
            config: deliver(p, w.config, Event::Byte(input[w.consumed])),
            consumed: w.consumed + 1,
            output: w.output,
        }),
        signal_at(p, w.config) == Signal::Read && !(0 <= w.consumed < input.len()) ==> step(
            p,
            input,
            w,
        ) == (World {
            config: deliver(p, w.config, Event::EndOfInput),
            consumed: w.consumed,
            output: w.output,
        }),
        signal_at(p, w.config) == Signal::Suspended ==> step(p, input, w) == (World {
            config: quiet_step(p, w.config),
            consumed: w.consumed,
            output: w.output,
        }),
        signal_at(p, w.config) != Signal::Halted,
        !(signal_at(p, w.config) is Fault),
{
}

/// A valid machine stays valid, and the instruction pointer stays within
/// a linked program, whatever is run.
pub proof fn lemma_step_keeps_valid(p: Seq<Instruction>, input: Seq<u8>, w: World)
    requires
        crate::instruction::linked(p),
        w.config.machine.valid(),
        !halted(p, w.config),
        !underflows(p, w.config),
    ensures
        step(p, input, w).config.machine.valid(),
        0 <= step(p, input, w).config.ip <= p.len(),
        w.output.is_prefix_of(step(p, input, w).output),
        w.consumed <= step(p, input, w).consumed,
        step(p, input, w).config.machine.cells.len() <= w.config.machine.cells.len() + 1,
{
    assert(crate::instruction::linked_at(p, w.config.ip));
}

/// Increment and decrement undo each other on every cell value.
pub proof fn lemma_increment_decrement_inverse(m: Machine)
    requires
        m.valid(),
    ensures
        m.incremented().decremented() == m,
        m.decremented().incremented() == m,
{
    assert(m.incremented().decremented().cells =~= m.cells);
    assert(m.decremented().incremented().cells =~= m.cells);
}

/// A cell wraps at both ends of its range and moves by one elsewhere.
pub proof fn lemma_cell_wraps(m: Machine)
    requires
        m.valid(),
    ensures
        m.current() == 255 ==> m.incremented().current() == 0,
        m.current() == 0 ==> m.decremented().current() == 255,
        m.current() < 255 ==> m.incremented().current() == m.current() + 1,
        m.current() > 0 ==> m.decremented().current() == m.current() - 1,
{
}

} // verus!
