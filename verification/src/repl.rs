use crate::error::{Error, ParserError};
use vstd::prelude::*;
use vstd::string::StringSliceAdditionalSpecFns;

verus! {

// The interactive loop belongs to the host: it prints a prompt, reads a
// line onto the end of its buffer, and runs the buffer on one session.
// What it does between those steps is decided here.

/// `word` stands in `text` at index `at`.
pub open spec fn occurs_at(text: Seq<u8>, word: Seq<u8>, at: int) -> bool {
    0 <= at && at + word.len() <= text.len() && text.subrange(at, at + word.len()) == word
}

/// `word` stands somewhere in `text`.
pub open spec fn occurs_in(text: Seq<u8>, word: Seq<u8>) -> bool {
    exists|at: int| occurs_at(text, word, at)
}

/// The word that ends an interactive session: `exit`.
pub open spec fn exit_word() -> Seq<u8> {
    seq![0x65u8, 0x78, 0x69, 0x74]
}

/// Which prompt to show.
#[derive(Clone, Copy, Debug, PartialEq, Eq, Structural)]
pub enum Prompt {
    /// The buffer is empty: a new fragment begins.
    Fresh,
    /// The buffer holds the beginning of a fragment whose loops are open.
    Continuation,
}

/// What to do with the buffer once it has been run.
#[derive(Clone, Copy, Debug, PartialEq, Eq, Structural)]
pub enum Reaction {
    /// The fragment ran: empty the buffer.
    Clear,
    /// A loop is still open: keep the buffer and read on.
    Keep,
    /// A `]` came too early: tell the user, then empty the buffer.
    Reject,
    /// The session cannot go on: leave with this error.
    Abort(Error),
}

/// The reaction that each result of a run calls for.
pub open spec fn reaction_to(result: Result<(), Error>) -> Reaction {
    match result {
        Ok(()) => Reaction::Clear,
        Err(Error::ParseError(ParserError::IncompleteLoop)) => Reaction::Keep,
        Err(Error::ParseError(ParserError::UnexpectedToken)) => Reaction::Reject,
        Err(error) => Reaction::Abort(error),
    }
}

fn matches_at(text: &[u8], word: &[u8], at: usize) -> (r: bool)
    requires
        at + word@.len() <= text@.len(),
    ensures
        r == occurs_at(text@, word@, at as int),
{
    let size: usize = text.len();
    let mut k: usize = 0;
    while k < word.len()
        invariant
            size == text@.len(),
            k <= word@.len(),
            at + word@.len() <= text@.len(),
            forall|j: int| 0 <= j < k ==> text@[at + j] == word@[j],
        decreases word@.len() - k,
    {
        if text[at + k] != word[k] {
            assert(text@.subrange(at as int, at + word@.len())[k as int] != word@[k as int]);
            return false;
        }
        k = k + 1;
    }
    assert(text@.subrange(at as int, at + word@.len()) =~= word@);
    true
}

/// Whether `word` stands somewhere in `text`.
pub fn contains(text: &[u8], word: &[u8]) -> (r: bool)
    ensures
        r == occurs_in(text@, word@),
{
    if word.len() > text.len() {
        return false;
    }
    let last: usize = text.len() - word.len();
    let mut at: usize = 0;
    loop
        invariant
            at <= last,
            last == text@.len() - word@.len(),
            forall|j: int| 0 <= j < at ==> !occurs_at(text@, word@, j),
        decreases last - at,
    {
        if matches_at(text, word, at) {
            return true;
        }
        if at == last {
            return false;
        }
        at = at + 1;
    }
}

/// Whether the buffer asks to end the session: it does as soon as `exit`
/// stands anywhere in it.
pub fn asks_to_leave(buffer: &str) -> (r: bool)
    ensures
        r == occurs_in(buffer.spec_bytes(), exit_word()),
{
    let word: [u8; 4] = [0x65, 0x78, 0x69, 0x74];
    assert(word@ =~= exit_word());
    contains(buffer.as_bytes(), word.as_slice())
}

/// The prompt for a buffer: `Fresh` for an empty one.
pub fn prompt_for(buffer: &str) -> (r: Prompt)
    ensures
        r == (if buffer.spec_bytes().len() == 0 {
            Prompt::Fresh
        } else {
            Prompt::Continuation
        }),
{
    if buffer.as_bytes().len() == 0 {
        Prompt::Fresh
    } else {
        Prompt::Continuation
    }
}

impl Prompt {
    /// The text of the prompt: `>` for a new fragment, `==>` to go on.
    pub fn text(&self) -> (r: &'static str)
        ensures
            r@ == (match self {
                Prompt::Fresh => ">"@,
                Prompt::Continuation => "==>"@,
            }),
    {
        match self {
            Prompt::Fresh => ">",
            Prompt::Continuation => "==>",
        }
    }
}

/// What to do once the buffer has been run: an open loop keeps the buffer
/// for more text, a `]` too many is reported and dropped, a failure at
/// run time or in compilation ends the session.
pub fn react(result: Result<(), Error>) -> (r: Reaction)
    ensures
        r == reaction_to(result),
{
    match result {
        Ok(()) => Reaction::Clear,
        Err(Error::ParseError(error)) => {
            if error.is_continuable() {
                Reaction::Keep
            } else {
                Reaction::Reject
            }
        },
        Err(error) => Reaction::Abort(error),
    }
}

} // verus!
