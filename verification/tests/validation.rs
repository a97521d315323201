use headache::error::ParserError;
use headache::instruction::{is_instruction_byte, Instruction};
use headache::parser::{parse, parse_bytes};

fn instructions(source: &str) -> Vec<Instruction> {
    parse(source).unwrap().instructions().clone()
}

#[test]
fn lone_loop_start_is_incomplete_then_completes() {
    assert_eq!(parse("[").unwrap_err(), ParserError::IncompleteLoop);
    assert_eq!(
        instructions("[]"),
        vec![Instruction::LoopStart(1), Instruction::LoopEnd(0)]
    );
}

#[test]
fn lone_loop_end_is_unexpected() {
    assert_eq!(parse("]").unwrap_err(), ParserError::UnexpectedToken);
}

#[test]
fn validating_twice_gives_the_same_program() {
    let source = "+[>[-]<[->+<]]>.";
    assert_eq!(instructions(source), instructions(source));
    assert_eq!(
        parse("[[").unwrap_err(),
        parse("[[").unwrap_err()
    );
}

#[test]
fn each_character_has_its_instruction() {
    assert_eq!(
        instructions("><+-.,"),
        vec![
            Instruction::MoveRight,
            Instruction::MoveLeft,
            Instruction::Increment,
            Instruction::Decrement,
            Instruction::Output,
            Instruction::Input,
        ]
    );
}

#[test]
fn other_bytes_are_noise() {
    assert_eq!(
        instructions("add one: + (then print) .\n"),
        vec![Instruction::Increment, Instruction::Output]
    );
    assert_eq!(instructions("héllo wörld"), vec![]);
    assert_eq!(instructions(""), vec![]);
    for b in 0u8..=255 {
        assert_eq!(is_instruction_byte(b), b"><+-.,[]".contains(&b));
    }
}

#[test]
fn nested_loops_link_innermost_first() {
    assert_eq!(
        instructions("[[]]"),
        vec![
            Instruction::LoopStart(3),
            Instruction::LoopStart(2),
            Instruction::LoopEnd(1),
            Instruction::LoopEnd(0),
        ]
    );
    assert_eq!(
        instructions("[][]"),
        vec![
            Instruction::LoopStart(1),
            Instruction::LoopEnd(0),
            Instruction::LoopStart(3),
            Instruction::LoopEnd(2),
        ]
    );
}

#[test]
fn targets_count_instructions_not_bytes() {
    assert_eq!(
        instructions("x [ y - z ] w"),
        vec![
            Instruction::LoopStart(2),
            Instruction::Decrement,
            Instruction::LoopEnd(0),
        ]
    );
}

#[test]
fn early_loop_end_wins_over_open_loops() {
    assert_eq!(parse("[]][").unwrap_err(), ParserError::UnexpectedToken);
    assert_eq!(parse("][").unwrap_err(), ParserError::UnexpectedToken);
    assert_eq!(parse("[[]").unwrap_err(), ParserError::IncompleteLoop);
    assert_eq!(parse("+[>+[").unwrap_err(), ParserError::IncompleteLoop);
}

#[test]
fn only_incomplete_loops_can_be_continued() {
    assert!(ParserError::IncompleteLoop.is_continuable());
    assert!(!ParserError::UnexpectedToken.is_continuable());
}

#[test]
fn bytes_and_text_validate_alike() {
    let source = "+[-]>,.";
    assert_eq!(
        parse_bytes(source.as_bytes()).unwrap().instructions(),
        parse(source).unwrap().instructions()
    );
    assert_eq!(
        parse_bytes(&[0xFF, b'[', 0x00, b']', 0x80]).unwrap().instructions(),
        &vec![Instruction::LoopStart(1), Instruction::LoopEnd(0)]
    );
}

#[test]
fn program_accessors_agree() {
    let program = parse("+[-]").unwrap();
    assert_eq!(program.len(), 4);
    assert_eq!(program.get(0), Some(Instruction::Increment));
    assert_eq!(program.get(1), Some(Instruction::LoopStart(3)));
    assert_eq!(program.get(3), Some(Instruction::LoopEnd(1)));
    assert_eq!(program.get(4), None);
}

#[test]
fn open_loops_close_with_as_many_loop_ends() {
    let mut text = String::from("+[>[-[");
    assert_eq!(parse(&text).unwrap_err(), ParserError::IncompleteLoop);
    text.push_str("]]]");
    assert_eq!(parse(&text).unwrap().len(), 9);
}

#[test]
fn early_loop_end_stays_an_error_whatever_follows() {
    for more in ["", "[", "[]", "+++", "]", "[[]]"] {
        let text = format!("+]{}", more);
        assert_eq!(parse(&text).unwrap_err(), ParserError::UnexpectedToken);
    }
}
