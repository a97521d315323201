use crate::error::{Error, Fault, ParserError, RuntimeError};
use crate::instruction::{linked_at, Instruction};
use crate::machine::{
    blocked, deliver, halted, quiet_step, resumed, run, run_quiet, signal_after, signal_at,
    underflows, Config, Event, Machine, Signal, World,
};
use crate::parser::{closes_unopened, depth, lemma_program_of, parse, program_of, tokens, Program};
use vstd::prelude::*;
use vstd::string::StringSliceAdditionalSpecFns;

verus! {

/// Where `resume` left a program, and why.
#[derive(Clone, Copy, Debug, PartialEq, Eq, Structural)]
pub struct Pause {
    /// The index of the instruction that comes next.
    pub ip: usize,
    pub signal: Signal,
}

/// Where `run` and `execute` left a program that has not failed.
#[derive(Clone, Copy, Debug, PartialEq, Eq, Structural)]
pub struct Progress {
    /// The program has run to its end; if not, the budget was used up.
    pub finished: bool,
    /// The index of the instruction that comes next.
    pub ip: usize,
    /// How many bytes of the input were taken.
    pub consumed: usize,
}

/// What `run` returns for the world `w` in which it stopped.
pub open spec fn report(p: Seq<Instruction>, w: World) -> Result<Progress, RuntimeError> {
    if underflows(p, w.config) {
        Err(RuntimeError { fault: Fault::PointerUnderflow, at: w.config.ip as usize })
    } else {
        Ok(
            Progress {
                finished: halted(p, w.config),
                ip: w.config.ip as usize,
                consumed: w.consumed as usize,
            },
        )
    }
}

/// What `execute` returns for a program that stopped in the world `w`.
pub open spec fn execution_report(p: Seq<Instruction>, w: World) -> Result<Progress, Error> {
    match report(p, w) {
        Ok(progress) => Ok(progress),
        Err(error) => Err(Error::RuntimeError(error)),
    }
}

/// The interpreter's session: a tape and a pointer that outlive the
/// programs run on them.
#[derive(Debug)]
pub struct Executor {
    tape: Vec<u8>,
    pointer: usize,
}

impl View for Executor {
    type V = Machine;

    closed spec fn view(&self) -> Machine {
        Machine { cells: self.tape@, pointer: self.pointer as int }
    }
}

impl Default for Executor {
    fn default() -> (r: Executor)
        ensures
            r@ == Machine::fresh(),
            r@.valid(),
    {
        Executor::new()
    }
}

impl Executor {
    /// A session with one zero cell, the pointer on it.
    pub fn new() -> (r: Executor)
        ensures
            r@ == Machine::fresh(),
            r@.valid(),
    {
        let mut tape: Vec<u8> = Vec::new();
        tape.push(0u8);
        assert(tape@ =~= seq![0u8]);
        Executor { tape, pointer: 0 }
    }

    /// A session on given cells, or `None` where the pointer would not
    /// stand on one of them.
    pub fn with_tape(cells: Vec<u8>, pointer: usize) -> (r: Option<Executor>)
        ensures
            r is Some <==> pointer < cells@.len(),
            r matches Some(e) ==> e@ == (Machine { cells: cells@, pointer: pointer as int })
                && e@.valid(),
    {
        if pointer < cells.len() {
            Some(Executor { tape: cells, pointer })
        } else {
            None
        }
    }

    /// The index of the current cell.
    pub fn pointer(&self) -> (r: usize)
        ensures
            r == self@.pointer,
    {
        self.pointer
    }

    /// The cells reached so far.
    pub fn cells(&self) -> (r: &Vec<u8>)
        ensures
            r@ == self@.cells,
    {
        &self.tape
    }

    /// The value of the current cell.
    pub fn current(&self) -> (r: u8)
        requires
            self@.valid(),
        ensures
            r == self@.current(),
    {
        self.tape[self.pointer]
    }

    fn store(&mut self, value: u8)
        requires
            old(self)@.valid(),
        ensures
            final(self)@ == old(self)@.store(value),
            final(self)@.valid(),
    {
        self.tape.set(self.pointer, value);
    }

    fn is_blocked(&self, program: &Program, ip: usize) -> (r: bool)
        ensures
            r == blocked(program@, Config { machine: self@, ip: ip as int }),
    {
        match program.get(ip) {
            None => true,
            Some(Instruction::Output) => true,
            Some(Instruction::Input) => true,
            Some(Instruction::MoveLeft) => self.pointer == 0,
            Some(_) => false,
        }
    }

    fn signal(&self, program: &Program, ip: usize) -> (r: Signal)
        requires
            self@.valid(),
        ensures
            r == signal_at(program@, Config { machine: self@, ip: ip as int }),
    {
        match program.get(ip) {
            None => Signal::Halted,
            Some(Instruction::Output) => Signal::Write(self.current()),
            Some(Instruction::Input) => Signal::Read,
            Some(Instruction::MoveLeft) => {
                if self.pointer == 0 {
                    Signal::Fault(RuntimeError { fault: Fault::PointerUnderflow, at: ip })
                } else {
                    Signal::Suspended
                }
            },
            Some(_) => Signal::Suspended,
        }
    }

    /// Carries out the instruction at `ip`, which needs no endpoint.
    fn advance(&mut self, program: &Program, ip: usize) -> (next: usize)
        requires
            old(self)@.valid(),
            !blocked(program@, Config { machine: old(self)@, ip: ip as int }),
        ensures
            (Config { machine: final(self)@, ip: next as int }) == quiet_step(
                program@,
                Config { machine: old(self)@, ip: ip as int },
            ),
            final(self)@.valid(),
            next <= program@.len(),
    {
        proof {
            use_type_invariant(program);
            assert(linked_at(program@, ip as int));
        }
        let instructions = program.instructions();
        let length = instructions.len();
        let extent = self.tape.len();
        assert(ip < length && self.pointer < extent);
        match instructions[ip] {
            Instruction::MoveRight => {
                if self.pointer + 1 == extent {
                    self.tape.push(0u8);
                }
                self.pointer = self.pointer + 1;
                ip + 1
            },
            Instruction::MoveLeft => {
                self.pointer = self.pointer - 1;
                ip + 1
            },
            Instruction::Increment => {
                let value = self.tape[self.pointer];
                self.store(if value == 255 { 0 } else { value + 1 });
                ip + 1
            },
            Instruction::Decrement => {
                let value = self.tape[self.pointer];
                self.store(if value == 0 { 255 } else { value - 1 });
                ip + 1
            },
            Instruction::LoopStart(target) => {
                if self.tape[self.pointer] == 0 {
                    target + 1
                } else {
                    ip + 1
                }
            },
            Instruction::LoopEnd(target) => target,
            Instruction::Output => ip,
            Instruction::Input => ip,
        }
    }

    /// Takes in `event`, then runs `program` from `ip` for at most `budget`
    /// instructions, until it ends, fails or needs an endpoint.
    ///
    /// The host writes and reads; the machine decides. A failed write or
    /// read that answers the pending instruction comes back as a fault at
    /// that instruction, with the session as it was.
    #[verifier::loop_isolation(false)]
    pub fn resume(&mut self, program: &Program, ip: usize, event: Event, budget: u64) -> (pause:
        Pause)
        requires
            old(self)@.valid(),
        ensures
            final(self)@.valid(),
            (Config { machine: final(self)@, ip: pause.ip as int }) == resumed(
                program@,
                Config { machine: old(self)@, ip: ip as int },
                event,
                budget as nat,
            ),
            pause.signal == signal_after(
                program@,
                Config { machine: old(self)@, ip: ip as int },
                event,
                budget as nat,
            ),
    {
        let ghost start = Config { machine: self@, ip: ip as int };
        let mut ip = ip;
        match (program.get(ip), event) {
            (Some(Instruction::Output), Event::Written) => {
                ip = ip + 1;
            },
            (Some(Instruction::Output), Event::WriteFailed) => {
                return Pause {
                    ip,
                    signal: Signal::Fault(RuntimeError { fault: Fault::OutputFailed, at: ip }),
                };
            },
            (Some(Instruction::Input), Event::Byte(b)) => {
                self.store(b);
                ip = ip + 1;
            },
            (Some(Instruction::Input), Event::EndOfInput) => {
                ip = ip + 1;
            },
            (Some(Instruction::Input), Event::ReadFailed) => {
                return Pause {
                    ip,
                    signal: Signal::Fault(RuntimeError { fault: Fault::InputFailed, at: ip }),
                };
            },
            _ => {},
        }
        let ghost delivered = Config { machine: self@, ip: ip as int };
        assert(delivered == deliver(program@, start, event));
        let mut left = budget;
        while left > 0
            invariant
                self@.valid(),
                run_quiet(program@, delivered, budget as nat) == run_quiet(
                    program@,
                    Config { machine: self@, ip: ip as int },
                    left as nat,
                ),
            decreases left,
        {
            if self.is_blocked(program, ip) {
                return Pause { ip, signal: self.signal(program, ip) };
            }
            ip = self.advance(program, ip);
            left = left - 1;
        }
        Pause { ip, signal: self.signal(program, ip) }
    }

    /// Runs `program` from `ip` for at most `budget` instructions with the
    /// endpoints in memory: `Input` takes the bytes of `input` in order and
    /// leaves the cell as it is once they are used up, `Output` appends to
    /// `output`.
    #[verifier::loop_isolation(false)]
    pub fn run(
        &mut self,
        program: &Program,
        ip: usize,
        input: &[u8],
        output: &mut Vec<u8>,
        budget: u64,
    ) -> (r: Result<Progress, RuntimeError>)
        requires
            old(self)@.valid(),
        ensures
            final(self)@.valid(),
            ({
                let w = run(
                    program@,
                    input@,
                    World {
                        config: Config { machine: old(self)@, ip: ip as int },
                        consumed: 0,
                        output: old(output)@,
                    },
                    budget as nat,
                );
                &&& final(self)@ == w.config.machine
                &&& final(output)@ == w.output
                &&& r == report(program@, w)
            }),
    {
        let ghost start = World {
            config: Config { machine: self@, ip: ip as int },
            consumed: 0,
            output: output@,
        };
        let mut ip = ip;
        let mut consumed: usize = 0;
        let mut left = budget;
        while left > 0
            invariant
                self@.valid(),
                consumed <= input@.len(),
                run(program@, input@, start, budget as nat) == run(
                    program@,
                    input@,
                    World {
                        config: Config { machine: self@, ip: ip as int },
                        consumed: consumed as int,
                        output: output@,
                    },
                    left as nat,
                ),
            decreases left,
        {
            match program.get(ip) {
                None => {
                    return Ok(Progress { finished: true, ip, consumed });
                },
                Some(Instruction::Output) => {
                    output.push(self.current());
                    ip = ip + 1;
                },
                Some(Instruction::Input) => {
                    if consumed < input.len() {
                        self.store(input[consumed]);
                        consumed = consumed + 1;
                    }
                    ip = ip + 1;
                },
                Some(_) => {
                    if self.is_blocked(program, ip) {
                        return Err(RuntimeError { fault: Fault::PointerUnderflow, at: ip });
                    }
                    ip = self.advance(program, ip);
                },
            }
            left = left - 1;
        }
        match self.signal(program, ip) {
            Signal::Halted => Ok(Progress { finished: true, ip, consumed }),
            Signal::Fault(error) => Err(error),
            _ => Ok(Progress { finished: false, ip, consumed }),
        }
    }

    /// Validates `source` and runs it from its first instruction on the
    /// tape as the last fragment left it.
    ///
    /// A text that is no program changes nothing. `IncompleteLoop` asks for
    /// more text rather than reporting a fault: the caller may append to
    /// the text and call again.
    pub fn execute(&mut self, source: &str, input: &[u8], output: &mut Vec<u8>, budget: u64) -> (r:
        Result<Progress, Error>)
        requires
            old(self)@.valid(),
        ensures
            final(self)@.valid(),
            ({
                let t = tokens(source.spec_bytes());
                let p = program_of(source.spec_bytes());
                let w = run(
                    p,
                    input@,
                    World {
                        config: Config { machine: old(self)@, ip: 0 },
                        consumed: 0,
                        output: old(output)@,
                    },
                    budget as nat,
                );
                if closes_unopened(t) {
                    &&& r == Err::<Progress, Error>(Error::ParseError(ParserError::UnexpectedToken))
                    &&& final(self)@ == old(self)@
                    &&& final(output)@ == old(output)@
                } else if depth(t, t.len() as int) > 0 {
                    &&& r == Err::<Progress, Error>(Error::ParseError(ParserError::IncompleteLoop))
                    &&& final(self)@ == old(self)@
                    &&& final(output)@ == old(output)@
                } else {
                    &&& final(self)@ == w.config.machine
                    &&& final(output)@ == w.output
                    &&& r == execution_report(p, w)
                }
            }),
    {
        match parse(source) {
            Err(error) => Err(Error::ParseError(error)),
            Ok(program) => {
                proof {
                    lemma_program_of(source.spec_bytes(), program@);
                }
                match self.run(&program, 0, input, output, budget) {
                    Ok(progress) => Ok(progress),
                    Err(error) => Err(Error::RuntimeError(error)),
                }
            },
        }
    }
}

} // verus!
