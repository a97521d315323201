use headache::error::{CompileError, Error, Fault, ParserError, RuntimeError};
use headache::repl::{asks_to_leave, contains, prompt_for, react, Prompt, Reaction};

#[test]
fn prompt_tells_a_new_fragment_from_an_open_one() {
    assert_eq!(prompt_for(""), Prompt::Fresh);
    assert_eq!(prompt_for("+[\n"), Prompt::Continuation);
    assert_eq!(prompt_for(" "), Prompt::Continuation);
    assert_eq!(Prompt::Fresh.text(), ">");
    assert_eq!(Prompt::Continuation.text(), "==>");
}

#[test]
fn exit_anywhere_in_the_buffer_ends_the_session() {
    assert!(asks_to_leave("exit"));
    assert!(asks_to_leave("exit\n"));
    assert!(asks_to_leave("+[\nplease exit now\n"));
    assert!(!asks_to_leave(""));
    assert!(!asks_to_leave("exi"));
    assert!(!asks_to_leave("ex it"));
    assert!(!asks_to_leave("EXIT"));
    assert!(!asks_to_leave("+++."));
}

#[test]
fn contains_finds_a_word_at_every_place() {
    assert!(contains(b"abc", b""));
    assert!(contains(b"", b""));
    assert!(!contains(b"", b"a"));
    assert!(contains(b"abc", b"a"));
    assert!(contains(b"abc", b"bc"));
    assert!(contains(b"abc", b"abc"));
    assert!(!contains(b"abc", b"abcd"));
    assert!(!contains(b"abc", b"ac"));
    assert!(contains(b"aab", b"ab"));
}

#[test]
fn reactions_follow_the_kind_of_error() {
    assert_eq!(react(Ok(())), Reaction::Clear);
    assert_eq!(
        react(Err(Error::ParseError(ParserError::IncompleteLoop))),
        Reaction::Keep
    );
    assert_eq!(
        react(Err(Error::ParseError(ParserError::UnexpectedToken))),
        Reaction::Reject
    );
    let fault = Error::RuntimeError(RuntimeError { fault: Fault::PointerUnderflow, at: 3 });
    assert_eq!(react(Err(fault)), Reaction::Abort(fault));
    let refused = Error::CompileError(CompileError::CodeTooLarge);
    assert_eq!(react(Err(refused)), Reaction::Abort(refused));
}
