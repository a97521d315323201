use headache::error::{CompileError, Error, Fault, ParserError, RuntimeError};
use headache::executor::{Executor, Pause, Progress};
use headache::machine::{Event, Signal};
use headache::parser::parse;

const PLENTY: u64 = 1_000_000;

fn run_text(executor: &mut Executor, source: &str, input: &[u8]) -> (Result<Progress, Error>, Vec<u8>) {
    let mut output = Vec::new();
    let result = executor.execute(source, input, &mut output, PLENTY);
    (result, output)
}

#[test]
fn increment_wraps_from_255_to_0() {
    let mut executor = Executor::with_tape(vec![255], 0).unwrap();
    let (result, _) = run_text(&mut executor, "+", &[]);
    assert!(result.unwrap().finished);
    assert_eq!(executor.cells(), &vec![0]);
}

#[test]
fn decrement_wraps_from_0_to_255() {
    let mut executor = Executor::new();
    let (result, _) = run_text(&mut executor, "-", &[]);
    assert!(result.unwrap().finished);
    assert_eq!(executor.cells(), &vec![255]);
    assert_eq!(executor.current(), 255);
}

#[test]
fn increment_then_decrement_restores_every_value() {
    for value in 0u8..=255 {
        let mut executor = Executor::with_tape(vec![value], 0).unwrap();
        run_text(&mut executor, "+-", &[]).0.unwrap();
        assert_eq!(executor.current(), value);
        run_text(&mut executor, "-+", &[]).0.unwrap();
        assert_eq!(executor.current(), value);
    }
}

#[test]
fn move_left_from_the_start_underflows() {
    let mut executor = Executor::new();
    let (result, output) = run_text(&mut executor, "<", &[]);
    assert_eq!(
        result,
        Err(Error::RuntimeError(RuntimeError { fault: Fault::PointerUnderflow, at: 0 }))
    );
    assert!(output.is_empty());
    assert_eq!(executor.pointer(), 0);
}

#[test]
fn underflow_names_the_failing_instruction_and_keeps_earlier_output() {
    let mut executor = Executor::new();
    let (result, output) = run_text(&mut executor, "+.><<+.", &[]);
    assert_eq!(
        result,
        Err(Error::RuntimeError(RuntimeError { fault: Fault::PointerUnderflow, at: 4 }))
    );
    assert_eq!(output, vec![1]);
    assert_eq!(executor.cells(), &vec![1, 0]);
    assert_eq!(executor.pointer(), 0);
}

#[test]
fn three_increments_then_output_write_one_byte_3() {
    let mut executor = Executor::new();
    let (result, output) = run_text(&mut executor, "+++.", &[]);
    assert_eq!(result, Ok(Progress { finished: true, ip: 4, consumed: 0 }));
    assert_eq!(output, vec![3]);
}

#[test]
fn loop_body_runs_once_per_count() {
    let mut executor = Executor::new();
    let (result, output) = run_text(&mut executor, "+++++[.-]", &[]);
    assert!(result.unwrap().finished);
    assert_eq!(output, vec![5, 4, 3, 2, 1]);
    assert_eq!(executor.current(), 0);
}

#[test]
fn loop_on_zero_cell_is_skipped() {
    let mut executor = Executor::new();
    let (result, output) = run_text(&mut executor, "[.+]+.", &[]);
    assert_eq!(result, Ok(Progress { finished: true, ip: 6, consumed: 0 }));
    assert_eq!(output, vec![1]);
}

#[test]
fn tape_state_survives_between_calls() {
    let mut executor = Executor::new();
    let (first, output) = run_text(&mut executor, "+", &[]);
    assert!(first.unwrap().finished);
    assert!(output.is_empty());
    let (second, output) = run_text(&mut executor, ".", &[]);
    assert!(second.unwrap().finished);
    assert_eq!(output, vec![1]);
}

#[test]
fn pointer_survives_between_calls() {
    let mut executor = Executor::new();
    run_text(&mut executor, ">>+++", &[]).0.unwrap();
    let (_, output) = run_text(&mut executor, ".<.", &[]);
    assert_eq!(output, vec![3, 0]);
    assert_eq!(executor.pointer(), 1);
}

#[test]
fn moving_right_extends_the_tape_with_zeros() {
    let mut executor = Executor::new();
    run_text(&mut executor, ">>+", &[]).0.unwrap();
    assert_eq!(executor.cells(), &vec![0, 0, 1]);
    assert_eq!(executor.pointer(), 2);
    run_text(&mut executor, "<<", &[]).0.unwrap();
    assert_eq!(executor.cells(), &vec![0, 0, 1]);
    assert_eq!(executor.pointer(), 0);
}

#[test]
fn input_stores_bytes_in_order() {
    let mut executor = Executor::new();
    let (result, output) = run_text(&mut executor, ",.,.", &[65, 66, 67]);
    assert_eq!(result, Ok(Progress { finished: true, ip: 4, consumed: 2 }));
    assert_eq!(output, vec![65, 66]);
}

#[test]
fn end_of_input_leaves_the_cell_unchanged() {
    let mut executor = Executor::new();
    let (result, output) = run_text(&mut executor, "+++,.", &[]);
    assert_eq!(result, Ok(Progress { finished: true, ip: 5, consumed: 0 }));
    assert_eq!(output, vec![3]);
    let (result, output) = run_text(&mut executor, ",.,.", &[9]);
    assert_eq!(result, Ok(Progress { finished: true, ip: 4, consumed: 1 }));
    assert_eq!(output, vec![9, 9]);
}

#[test]
fn output_is_appended_to_what_is_there() {
    let mut executor = Executor::new();
    let mut output = vec![7, 8];
    executor.execute("+.", &[], &mut output, PLENTY).unwrap();
    assert_eq!(output, vec![7, 8, 1]);
}

#[test]
fn invalid_text_changes_nothing() {
    let mut executor = Executor::with_tape(vec![4, 5], 1).unwrap();
    let (result, output) = run_text(&mut executor, "+.[", &[]);
    assert_eq!(result, Err(Error::ParseError(ParserError::IncompleteLoop)));
    assert!(output.is_empty());
    let (result, output) = run_text(&mut executor, "+.]", &[]);
    assert_eq!(result, Err(Error::ParseError(ParserError::UnexpectedToken)));
    assert!(output.is_empty());
    assert_eq!(executor.cells(), &vec![4, 5]);
    assert_eq!(executor.pointer(), 1);
}

#[test]
fn incomplete_text_runs_once_completed() {
    let mut executor = Executor::new();
    let mut text = String::from("++[");
    assert_eq!(
        run_text(&mut executor, &text, &[]).0,
        Err(Error::ParseError(ParserError::IncompleteLoop))
    );
    assert_eq!(executor.current(), 0);
    text.push_str(".-]");
    let (result, output) = run_text(&mut executor, &text, &[]);
    assert!(result.unwrap().finished);
    assert_eq!(output, vec![2, 1]);
}

#[test]
fn budget_bounds_the_number_of_instructions() {
    let mut executor = Executor::new();
    let mut output = Vec::new();
    let result = executor.execute("+[]", &[], &mut output, 10);
    assert_eq!(result, Ok(Progress { finished: false, ip: 2, consumed: 0 }));
    let mut executor = Executor::new();
    let result = executor.execute("+++", &[], &mut output, 2);
    assert_eq!(result, Ok(Progress { finished: false, ip: 2, consumed: 0 }));
    assert_eq!(executor.current(), 2);
    let result = executor.execute("+++", &[], &mut output, 3);
    assert_eq!(result, Ok(Progress { finished: true, ip: 3, consumed: 0 }));
    assert_eq!(executor.current(), 5);
}

#[test]
fn suspended_run_goes_on_where_it_stopped() {
    let program = parse("++++[->++<]>.").unwrap();
    let mut whole = Executor::new();
    let mut whole_output = Vec::new();
    let done = whole.run(&program, 0, &[], &mut whole_output, PLENTY).unwrap();
    assert!(done.finished);
    assert_eq!(whole_output, vec![8]);

    let mut pieces = Executor::new();
    let mut pieces_output = Vec::new();
    let mut ip = 0;
    let mut rounds = 0;
    loop {
        let progress = pieces.run(&program, ip, &[], &mut pieces_output, 3).unwrap();
        ip = progress.ip;
        rounds += 1;
        if progress.finished {
            break;
        }
    }
    assert!(rounds > 1);
    assert_eq!(pieces_output, whole_output);
    assert_eq!(pieces.cells(), whole.cells());
    assert_eq!(pieces.pointer(), whole.pointer());
}

#[test]
fn zero_budget_does_nothing() {
    let mut executor = Executor::new();
    let mut output = Vec::new();
    let result = executor.execute("+.", &[], &mut output, 0);
    assert_eq!(result, Ok(Progress { finished: false, ip: 0, consumed: 0 }));
    assert_eq!(executor.current(), 0);
    let result = executor.execute("", &[], &mut output, 0);
    assert_eq!(result, Ok(Progress { finished: true, ip: 0, consumed: 0 }));
    let result = executor.execute("<", &[], &mut output, 0);
    assert_eq!(
        result,
        Err(Error::RuntimeError(RuntimeError { fault: Fault::PointerUnderflow, at: 0 }))
    );
}

#[test]
fn with_tape_wants_the_pointer_on_a_cell() {
    assert!(Executor::with_tape(vec![], 0).is_none());
    assert!(Executor::with_tape(vec![1, 2], 2).is_none());
    let executor = Executor::with_tape(vec![1, 2], 1).unwrap();
    assert_eq!(executor.current(), 2);
    let fresh = Executor::default();
    assert_eq!(fresh.cells(), &vec![0]);
    assert_eq!(fresh.pointer(), 0);
}

#[test]
fn resume_hands_io_to_its_host() {
    let program = parse(",+.").unwrap();
    let mut executor = Executor::new();
    let pause = executor.resume(&program, 0, Event::Resume, PLENTY);
    assert_eq!(pause, Pause { ip: 0, signal: Signal::Read });
    let pause = executor.resume(&program, pause.ip, Event::Byte(41), PLENTY);
    assert_eq!(pause, Pause { ip: 2, signal: Signal::Write(42) });
    let pause = executor.resume(&program, pause.ip, Event::Written, PLENTY);
    assert_eq!(pause, Pause { ip: 3, signal: Signal::Halted });
    assert_eq!(executor.current(), 42);
}

#[test]
fn resume_repeats_a_request_that_was_not_answered() {
    let program = parse(".,").unwrap();
    let mut executor = Executor::with_tape(vec![5], 0).unwrap();
    for event in [Event::Resume, Event::Byte(1), Event::EndOfInput, Event::ReadFailed] {
        let pause = executor.resume(&program, 0, event, PLENTY);
        assert_eq!(pause, Pause { ip: 0, signal: Signal::Write(5) });
    }
    for event in [Event::Resume, Event::Written, Event::WriteFailed] {
        let pause = executor.resume(&program, 1, event, PLENTY);
        assert_eq!(pause, Pause { ip: 1, signal: Signal::Read });
    }
    assert_eq!(executor.current(), 5);
}

#[test]
fn resume_at_end_of_input_leaves_the_cell() {
    let program = parse(",.").unwrap();
    let mut executor = Executor::with_tape(vec![77], 0).unwrap();
    let pause = executor.resume(&program, 0, Event::EndOfInput, PLENTY);
    assert_eq!(pause, Pause { ip: 1, signal: Signal::Write(77) });
}

#[test]
fn failed_write_is_a_fault_at_the_output() {
    let program = parse("+.").unwrap();
    let mut executor = Executor::new();
    let pause = executor.resume(&program, 0, Event::Resume, PLENTY);
    assert_eq!(pause, Pause { ip: 1, signal: Signal::Write(1) });
    let pause = executor.resume(&program, pause.ip, Event::WriteFailed, PLENTY);
    assert_eq!(
        pause,
        Pause {
            ip: 1,
            signal: Signal::Fault(RuntimeError { fault: Fault::OutputFailed, at: 1 }),
        }
    );
    assert_eq!(executor.current(), 1);
}

#[test]
fn failed_read_is_a_fault_at_the_input() {
    let program = parse(">,").unwrap();
    let mut executor = Executor::new();
    let pause = executor.resume(&program, 0, Event::Resume, PLENTY);
    assert_eq!(pause, Pause { ip: 1, signal: Signal::Read });
    let pause = executor.resume(&program, pause.ip, Event::ReadFailed, PLENTY);
    assert_eq!(
        pause,
        Pause {
            ip: 1,
            signal: Signal::Fault(RuntimeError { fault: Fault::InputFailed, at: 1 }),
        }
    );
}

#[test]
fn resume_reports_underflow_and_exhaustion() {
    let program = parse("+<").unwrap();
    let mut executor = Executor::new();
    let pause = executor.resume(&program, 0, Event::Resume, PLENTY);
    assert_eq!(
        pause,
        Pause {
            ip: 1,
            signal: Signal::Fault(RuntimeError { fault: Fault::PointerUnderflow, at: 1 }),
        }
    );
    let program = parse("+[]").unwrap();
    let mut executor = Executor::new();
    let pause = executor.resume(&program, 0, Event::Resume, 7);
    assert_eq!(pause.signal, Signal::Suspended);
    let pause = executor.resume(&program, 9, Event::Resume, 7);
    assert_eq!(pause, Pause { ip: 9, signal: Signal::Halted });
}

#[test]
fn resume_and_run_agree() {
    let source = "++>+++[-<+>]<.>,.";
    let input = [200u8];
    let program = parse(source).unwrap();
    let mut buffered = Executor::new();
    let mut expected = Vec::new();
    buffered.run(&program, 0, &input, &mut expected, PLENTY).unwrap();

    let mut live = Executor::new();
    let mut written = Vec::new();
    let mut taken = 0;
    let mut event = Event::Resume;
    let mut ip = 0;
    loop {
        let pause = live.resume(&program, ip, event, 2);
        ip = pause.ip;
        event = match pause.signal {
            Signal::Halted => break,
            Signal::Suspended => Event::Resume,
            Signal::Write(byte) => {
                written.push(byte);
                Event::Written
            }
            Signal::Read => {
                if taken < input.len() {
                    taken += 1;
                    Event::Byte(input[taken - 1])
                } else {
                    Event::EndOfInput
                }
            }
            Signal::Fault(error) => panic!("{:?}", error),
        };
    }
    assert_eq!(written, expected);
    assert_eq!(written, vec![5, 200]);
    assert_eq!(live.cells(), buffered.cells());
    assert_eq!(live.pointer(), buffered.pointer());
}

#[test]
fn only_compile_errors_allow_the_fallback() {
    assert!(Error::CompileError(CompileError::UnsupportedTarget).allows_fallback());
    assert!(Error::CompileError(CompileError::CodeTooLarge).allows_fallback());
    assert!(Error::CompileError(CompileError::AllocationFailed).allows_fallback());
    assert!(!Error::ParseError(ParserError::IncompleteLoop).allows_fallback());
    assert!(!Error::ParseError(ParserError::UnexpectedToken).allows_fallback());
    assert!(!Error::RuntimeError(RuntimeError { fault: Fault::PointerUnderflow, at: 0 })
        .allows_fallback());
}

#[test]
fn fragments_on_one_session_run_as_one_program() {
    let first = "++>,[-<+>]";
    let second = "<.>+++[-<->]<.,.";
    let input = [5u8, 9];

    let mut session = Executor::new();
    let mut output = Vec::new();
    let left = session.execute(first, &input, &mut output, PLENTY).unwrap();
    assert!(left.finished);
    let end = session
        .execute(second, &input[left.consumed..], &mut output, PLENTY)
        .unwrap();
    assert!(end.finished);

    let mut whole = Executor::new();
    let mut whole_output = Vec::new();
    let joined = format!("{}{}", first, second);
    let done = whole.execute(&joined, &input, &mut whole_output, PLENTY).unwrap();

    assert_eq!(output, vec![7, 4, 9]);
    assert_eq!(whole_output, output);
    assert_eq!(whole.cells(), session.cells());
    assert_eq!(whole.pointer(), session.pointer());
    assert_eq!(done.consumed, left.consumed + end.consumed);
    assert_eq!(done.ip, parse(first).unwrap().len() + end.ip);
}

#[test]
fn joined_text_links_the_second_fragment_further_on() {
    let joined = parse("[-]+[>]").unwrap();
    let second = parse("+[>]").unwrap();
    assert_eq!(second.get(1), Some(headache::instruction::Instruction::LoopStart(3)));
    assert_eq!(joined.get(4), Some(headache::instruction::Instruction::LoopStart(6)));
    assert_eq!(joined.get(6), Some(headache::instruction::Instruction::LoopEnd(4)));
}
