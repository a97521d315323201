use headache::codegen::{generate, read_status, Exit, CODE_LIMIT, EPILOGUE_LEN, PROLOGUE_LEN};
use headache::compiler::{compile, Backend};
use headache::error::{CompileError, Error, Fault, ParserError, RuntimeError};
use headache::executor::Executor;
use headache::machine::{Event, Signal};
use headache::parser::parse;

const PROLOGUE: [u8; 15] = [
    0x53, 0x41, 0x54, 0x41, 0x55, 0x48, 0x89, 0xFB, 0x4C, 0x8B, 0x23, 0x4C, 0x8B, 0x6B, 0x10,
];

const EPILOGUE: [u8; 12] = [0x31, 0xC0, 0x4C, 0x89, 0x6B, 0x10, 0x41, 0x5D, 0x41, 0x5C, 0x5B, 0xC3];

const HELLO: &str = "++++++++[>++++[>++>+++>+++>+<<<<-]>+>+>->>+[<]<-]>>.>---.+++++++..+++.>>.<-.<.+++.------.--------.>>+.>++.";

fn code_of(source: &str) -> Vec<u8> {
    generate(&parse(source).unwrap()).unwrap()
}

fn body_of(source: &str) -> Vec<u8> {
    let code = code_of(source);
    assert_eq!(&code[..PROLOGUE.len()], &PROLOGUE);
    assert_eq!(&code[code.len() - EPILOGUE.len()..], &EPILOGUE);
    code[PROLOGUE.len()..code.len() - EPILOGUE.len()].to_vec()
}

/// The host side of the emitted code, with the endpoints in memory.
struct Host {
    tape: Vec<u8>,
    pointer: u64,
    input: Vec<u8>,
    taken: usize,
    output: Vec<u8>,
    writes_allowed: usize,
    reads_fail: bool,
}

impl Host {
    fn new(input: &[u8]) -> Host {
        Host {
            tape: vec![0],
            pointer: 0,
            input: input.to_vec(),
            taken: 0,
            output: Vec::new(),
            writes_allowed: usize::MAX,
            reads_fail: false,
        }
    }
}

fn rel8(code: &[u8], at: usize) -> i64 {
    code[at] as i8 as i64
}

fn rel32(code: &[u8], at: usize) -> i64 {
    i32::from_le_bytes([code[at], code[at + 1], code[at + 2], code[at + 3]]) as i64
}

fn jump(next: usize, displacement: i64) -> usize {
    (next as i64 + displacement) as usize
}

/// Runs the instructions that the emitter uses, and no others, the way an
/// x86-64 processor does. It panics on a byte sequence it does not know,
/// on a cell access off the tape or through a stale base, and on a return
/// with registers still saved.
fn emulate(code: &[u8], host: &mut Host, fuel: usize) -> u64 {
    let mut pc: usize = 0;
    let mut index: u64 = 0;
    let mut rax: u64 = 0;
    let mut argument: u8 = 0;
    let mut zero = false;
    let mut below = false;
    let mut base_loaded = false;
    let mut saved: Vec<u8> = Vec::new();
    for _ in 0..fuel {
        let rest = &code[pc..];
        let cell = index as usize;
        if rest.starts_with(&[0x53]) {
            saved.push(b'b');
            pc += 1;
        } else if rest.starts_with(&[0x41, 0x54]) {
            saved.push(b'2');
            pc += 2;
        } else if rest.starts_with(&[0x41, 0x55]) {
            saved.push(b'3');
            pc += 2;
        } else if rest.starts_with(&[0x41, 0x5D]) {
            assert_eq!(saved.pop(), Some(b'3'));
            pc += 2;
        } else if rest.starts_with(&[0x41, 0x5C]) {
            assert_eq!(saved.pop(), Some(b'2'));
            pc += 2;
        } else if rest.starts_with(&[0x5B]) {
            assert_eq!(saved.pop(), Some(b'b'));
            pc += 1;
        } else if rest.starts_with(&[0xC3]) {
            assert!(saved.is_empty());
            return rax;
        } else if rest.starts_with(&[0x48, 0x89, 0xFB]) || rest.starts_with(&[0x48, 0x89, 0xDF]) {
            pc += 3;
        } else if rest.starts_with(&[0x4C, 0x8B, 0x23]) {
            base_loaded = true;
            pc += 3;
        } else if rest.starts_with(&[0x4C, 0x8B, 0x6B, 0x10]) {
            index = host.pointer;
            pc += 4;
        } else if rest.starts_with(&[0x4C, 0x89, 0x6B, 0x10]) {
            host.pointer = index;
            pc += 4;
        } else if rest.starts_with(&[0x4C, 0x3B, 0x6B, 0x08]) {
            zero = index == host.tape.len() as u64;
            below = index < host.tape.len() as u64;
            pc += 4;
        } else if rest.starts_with(&[0x49, 0xFF, 0xC5]) {
            index = index.wrapping_add(1);
            zero = index == 0;
            pc += 3;
        } else if rest.starts_with(&[0x49, 0xFF, 0xCD]) {
            index = index.wrapping_sub(1);
            zero = index == 0;
            pc += 3;
        } else if rest.starts_with(&[0x4D, 0x85, 0xED]) {
            zero = index == 0;
            below = false;
            pc += 3;
        } else if rest.starts_with(&[0x48, 0x85, 0xC0]) {
            zero = rax == 0;
            below = false;
            pc += 3;
        } else if rest.starts_with(&[0x48, 0x3D]) {
            let operand = rel32(code, pc + 2) as u64;
            zero = rax == operand;
            below = rax < operand;
            pc += 6;
        } else if rest.starts_with(&[0x48, 0xB8]) {
            let mut word = [0u8; 8];
            word.copy_from_slice(&code[pc + 2..pc + 10]);
            rax = u64::from_le_bytes(word);
            pc += 10;
        } else if rest.starts_with(&[0x31, 0xC0]) {
            rax = 0;
            zero = true;
            below = false;
            pc += 2;
        } else if rest.starts_with(&[0x43, 0xFE, 0x04, 0x2C]) {
            assert!(base_loaded);
            host.tape[cell] = host.tape[cell].wrapping_add(1);
            zero = host.tape[cell] == 0;
            pc += 4;
        } else if rest.starts_with(&[0x43, 0xFE, 0x0C, 0x2C]) {
            assert!(base_loaded);
            host.tape[cell] = host.tape[cell].wrapping_sub(1);
            zero = host.tape[cell] == 0;
            pc += 4;
        } else if rest.starts_with(&[0x43, 0x0F, 0xB6, 0x34, 0x2C]) {
            assert!(base_loaded);
            argument = host.tape[cell];
            pc += 5;
        } else if rest.starts_with(&[0x43, 0x88, 0x04, 0x2C]) {
            assert!(base_loaded);
            host.tape[cell] = rax as u8;
            pc += 4;
        } else if rest.starts_with(&[0x43, 0x80, 0x3C, 0x2C]) {
            assert!(base_loaded);
            zero = host.tape[cell] == code[pc + 4];
            below = host.tape[cell] < code[pc + 4];
            pc += 5;
        } else if rest.starts_with(&[0x72]) {
            pc = if below { jump(pc + 2, rel8(code, pc + 1)) } else { pc + 2 };
        } else if rest.starts_with(&[0x74]) {
            pc = if zero { jump(pc + 2, rel8(code, pc + 1)) } else { pc + 2 };
        } else if rest.starts_with(&[0x75]) {
            pc = if !zero { jump(pc + 2, rel8(code, pc + 1)) } else { pc + 2 };
        } else if rest.starts_with(&[0x0F, 0x84]) {
            pc = if zero { jump(pc + 6, rel32(code, pc + 2)) } else { pc + 6 };
        } else if rest.starts_with(&[0xE9]) {
            pc = jump(pc + 5, rel32(code, pc + 1));
        } else if rest.starts_with(&[0xFF, 0x53, 0x18]) {
            assert_eq!(saved.len(), 3);
            rax = if host.output.len() < host.writes_allowed {
                host.output.push(argument);
                0
            } else {
                1
            };
            pc += 3;
        } else if rest.starts_with(&[0xFF, 0x53, 0x20]) {
            assert_eq!(saved.len(), 3);
            rax = if host.reads_fail {
                257
            } else if host.taken < host.input.len() {
                host.taken += 1;
                host.input[host.taken - 1] as u64
            } else {
                256
            };
            pc += 3;
        } else if rest.starts_with(&[0xFF, 0x53, 0x28]) {
            assert_eq!(saved.len(), 3);
            host.tape.push(0);
            base_loaded = false;
            rax = 0xDEAD;
            pc += 3;
        } else {
            panic!("unknown code at {}: {:?}", pc, &rest[..rest.len().min(8)]);
        }
    }
    panic!("out of fuel");
}

/// Interprets `source` with the endpoints in memory and the same failures
/// as the host of the emulation.
fn interpret(source: &str, host: &mut Host) -> Exit {
    let program = parse(source).unwrap();
    let mut executor = Executor::with_tape(host.tape.clone(), host.pointer as usize).unwrap();
    let mut event = Event::Resume;
    let mut ip = 0;
    let exit = loop {
        let pause = executor.resume(&program, ip, event, 1000);
        ip = pause.ip;
        event = match pause.signal {
            Signal::Halted => break Exit::Finished,
            Signal::Fault(error) => break Exit::Failed(error),
            Signal::Suspended => Event::Resume,
            Signal::Write(byte) => {
                if host.output.len() < host.writes_allowed {
                    host.output.push(byte);
                    Event::Written
                } else {
                    Event::WriteFailed
                }
            }
            Signal::Read => {
                if host.reads_fail {
                    Event::ReadFailed
                } else if host.taken < host.input.len() {
                    host.taken += 1;
                    Event::Byte(host.input[host.taken - 1])
                } else {
                    Event::EndOfInput
                }
            }
        };
    };
    host.tape = executor.cells().clone();
    host.pointer = executor.pointer() as u64;
    exit
}

fn assert_same(source: &str, input: &[u8], writes_allowed: usize, reads_fail: bool) -> (Exit, Vec<u8>) {
    let mut native = Host::new(input);
    native.writes_allowed = writes_allowed;
    native.reads_fail = reads_fail;
    let mut interpreted = Host::new(input);
    interpreted.writes_allowed = writes_allowed;
    interpreted.reads_fail = reads_fail;
    let word = emulate(&code_of(source), &mut native, 10_000_000);
    let exit = interpret(source, &mut interpreted);
    assert_eq!(read_status(word), exit, "{}", source);
    assert_eq!(native.output, interpreted.output, "{}", source);
    assert_eq!(native.tape, interpreted.tape, "{}", source);
    assert_eq!(native.pointer, interpreted.pointer, "{}", source);
    assert_eq!(native.taken, interpreted.taken, "{}", source);
    (exit, native.output)
}

#[test]
fn empty_program_is_prologue_and_epilogue() {
    let code = code_of("");
    assert_eq!(code.len(), PROLOGUE_LEN + EPILOGUE_LEN);
    assert_eq!(&code[..15], &PROLOGUE);
    assert_eq!(&code[15..], &EPILOGUE);
}

#[test]
fn cell_arithmetic_is_one_instruction_each() {
    assert_eq!(body_of("+"), vec![0x43, 0xFE, 0x04, 0x2C]);
    assert_eq!(body_of("-"), vec![0x43, 0xFE, 0x0C, 0x2C]);
    assert_eq!(body_of("+-"), vec![0x43, 0xFE, 0x04, 0x2C, 0x43, 0xFE, 0x0C, 0x2C]);
}

#[test]
fn move_right_checks_the_extent() {
    assert_eq!(
        body_of(">"),
        vec![
            0x49, 0xFF, 0xC5, 0x4C, 0x3B, 0x6B, 0x08, 0x72, 0x09, 0x48, 0x89, 0xDF, 0xFF, 0x53,
            0x28, 0x4C, 0x8B, 0x23,
        ]
    );
}

#[test]
fn move_left_carries_its_fault() {
    assert_eq!(
        body_of("<"),
        vec![
            0x4D, 0x85, 0xED, 0x75, 0x0F, 0x48, 0xB8, 0x00, 0x00, 0x00, 0x00, 0x01, 0x00, 0x00,
            0x00, 0xE9, 0x05, 0x00, 0x00, 0x00, 0x49, 0xFF, 0xCD,
        ]
    );
    assert_eq!(
        body_of("+<+")[4..],
        vec![
            0x4D, 0x85, 0xED, 0x75, 0x0F, 0x48, 0xB8, 0x01, 0x00, 0x00, 0x00, 0x01, 0x00, 0x00,
            0x00, 0xE9, 0x09, 0x00, 0x00, 0x00, 0x49, 0xFF, 0xCD, 0x43, 0xFE, 0x04, 0x2C,
        ]
    );
}

#[test]
fn output_and_input_call_the_host() {
    assert_eq!(
        body_of("."),
        vec![
            0x48, 0x89, 0xDF, 0x43, 0x0F, 0xB6, 0x34, 0x2C, 0xFF, 0x53, 0x18, 0x48, 0x85, 0xC0,
            0x74, 0x0F, 0x48, 0xB8, 0x00, 0x00, 0x00, 0x00, 0x02, 0x00, 0x00, 0x00, 0xE9, 0x02,
            0x00, 0x00, 0x00,
        ]
    );
    assert_eq!(
        body_of(","),
        vec![
            0x48, 0x89, 0xDF, 0xFF, 0x53, 0x20, 0x48, 0x3D, 0x00, 0x01, 0x00, 0x00, 0x74, 0x15,
            0x72, 0x0F, 0x48, 0xB8, 0x00, 0x00, 0x00, 0x00, 0x03, 0x00, 0x00, 0x00, 0xE9, 0x06,
            0x00, 0x00, 0x00, 0x43, 0x88, 0x04, 0x2C,
        ]
    );
}

#[test]
fn empty_loop_branches_over_and_back() {
    assert_eq!(
        body_of("[]"),
        vec![
            0x43, 0x80, 0x3C, 0x2C, 0x00, 0x0F, 0x84, 0x05, 0x00, 0x00, 0x00, 0xE9, 0xF0, 0xFF,
            0xFF, 0xFF,
        ]
    );
}

#[test]
fn nested_loops_branch_to_their_own_partners() {
    let body = body_of("[-[+]]");
    assert_eq!(body.len(), 11 + 4 + 11 + 4 + 5 + 5);
    assert_eq!(&body[7..11], &29i32.to_le_bytes());
    assert_eq!(&body[22..26], &9i32.to_le_bytes());
    assert_eq!(&body[31..35], &(-20i32).to_le_bytes());
    assert_eq!(&body[36..40], &(-40i32).to_le_bytes());
}

#[test]
fn code_size_is_the_sum_of_its_blocks() {
    let code = code_of("><+-.,[]");
    assert_eq!(code.len(), 15 + 18 + 23 + 4 + 4 + 31 + 35 + 11 + 5 + 12);
    assert!(code.len() <= CODE_LIMIT);
}

#[test]
fn generating_twice_gives_the_same_code() {
    assert_eq!(code_of(HELLO), code_of(HELLO));
}

#[test]
fn status_words_are_read_back() {
    assert_eq!(read_status(0), Exit::Finished);
    assert_eq!(
        read_status((1 << 32) | 7),
        Exit::Failed(RuntimeError { fault: Fault::PointerUnderflow, at: 7 })
    );
    assert_eq!(
        read_status(2 << 32),
        Exit::Failed(RuntimeError { fault: Fault::OutputFailed, at: 0 })
    );
    assert_eq!(
        read_status((3 << 32) | 0x7fff_ffff),
        Exit::Failed(RuntimeError { fault: Fault::InputFailed, at: 0x7fff_ffff })
    );
    assert_eq!(read_status(9 << 32), Exit::Unrecognized);
    assert_eq!(read_status(5), Exit::Unrecognized);
}

#[test]
fn native_and_interpreted_three_then_output() {
    let (exit, output) = assert_same("+++.", &[], usize::MAX, false);
    assert_eq!(exit, Exit::Finished);
    assert_eq!(output, vec![3]);
}

#[test]
fn native_and_interpreted_counted_loop() {
    let (exit, output) = assert_same("+++++[.-]", &[], usize::MAX, false);
    assert_eq!(exit, Exit::Finished);
    assert_eq!(output, vec![5, 4, 3, 2, 1]);
}

#[test]
fn native_and_interpreted_underflow() {
    let (exit, _) = assert_same("<", &[], usize::MAX, false);
    assert_eq!(
        exit,
        Exit::Failed(RuntimeError { fault: Fault::PointerUnderflow, at: 0 })
    );
    let (exit, output) = assert_same("+.>><<<.", &[], usize::MAX, false);
    assert_eq!(
        exit,
        Exit::Failed(RuntimeError { fault: Fault::PointerUnderflow, at: 6 })
    );
    assert_eq!(output, vec![1]);
}

#[test]
fn native_and_interpreted_wrap() {
    let (_, output) = assert_same("-.+.", &[], usize::MAX, false);
    assert_eq!(output, vec![255, 0]);
}

#[test]
fn native_and_interpreted_hello() {
    let (exit, output) = assert_same(HELLO, &[], usize::MAX, false);
    assert_eq!(exit, Exit::Finished);
    assert_eq!(output, b"Hello World!\n".to_vec());
}

#[test]
fn native_and_interpreted_input() {
    let (_, output) = assert_same(",[.,]", b"abc\0def", usize::MAX, false);
    assert_eq!(output, b"abc".to_vec());
    let (_, output) = assert_same("+++,.,.,.", &[9], usize::MAX, false);
    assert_eq!(output, vec![9, 9, 9]);
    let (_, output) = assert_same(",>,>,<<.>.>.", &[1, 2], usize::MAX, false);
    assert_eq!(output, vec![1, 2, 0]);
}

#[test]
fn native_and_interpreted_tape_growth() {
    assert_same(">>>>>>>>>>+<<<<<<<<<<", &[], usize::MAX, false);
    assert_same("+[>+++[>+<-]<-]>>[.-]", &[], usize::MAX, false);
    assert_same("++[>++[>++[>++<-]<-]<-]>>>.", &[], usize::MAX, false);
}

#[test]
fn native_and_interpreted_failed_write() {
    let (exit, output) = assert_same("+.+.+.", &[], 2, false);
    assert_eq!(
        exit,
        Exit::Failed(RuntimeError { fault: Fault::OutputFailed, at: 5 })
    );
    assert_eq!(output, vec![1, 2]);
}

#[test]
fn native_and_interpreted_failed_read() {
    let (exit, _) = assert_same("+>,", &[1], usize::MAX, true);
    assert_eq!(
        exit,
        Exit::Failed(RuntimeError { fault: Fault::InputFailed, at: 2 })
    );
}

#[test]
fn native_and_interpreted_skipped_loops() {
    assert_same("[.+][[-]>]+.", &[], usize::MAX, false);
    assert_same("+[-]>[<]+[>]", &[], usize::MAX, false);
}

#[test]
fn compile_reports_syntax_before_anything_else() {
    for backend in [Backend::Native, Backend::Interpreter] {
        assert_eq!(
            compile("+[", backend).unwrap_err(),
            Error::ParseError(ParserError::IncompleteLoop)
        );
        assert_eq!(
            compile("+]", backend).unwrap_err(),
            Error::ParseError(ParserError::UnexpectedToken)
        );
    }
}

#[test]
fn compile_without_native_backend_asks_for_the_fallback() {
    let error = compile("+++.", Backend::Interpreter).unwrap_err();
    assert_eq!(error, Error::CompileError(CompileError::UnsupportedTarget));
    assert!(error.allows_fallback());
}

#[test]
fn compile_gives_program_and_code() {
    let artifact = compile("+[-]", Backend::Native).unwrap();
    assert_eq!(artifact.program.instructions(), parse("+[-]").unwrap().instructions());
    assert_eq!(artifact.code, code_of("+[-]"));
}
