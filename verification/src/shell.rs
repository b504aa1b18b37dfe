//! The commands of the interactive front end.
//!
//! A line of input is split into words as a shell would split it. The
//! words spell one command, which is then run on the store. Turning words
//! into a command, reading lines and printing are left to the program.

use crate::error::KVError;
use crate::store::ActionKV;
use vstd::prelude::*;

verus! {

/// One command of the front end.
#[derive(Debug, PartialEq, Eq)]
pub enum Command {
    /// Look up a key.
    Get { key: Vec<u8> },
    /// Insert a key with a value.
    Insert { key: Vec<u8>, value: Vec<u8> },
    /// Delete a key.
    Delete { key: Vec<u8> },
    /// Leave.
    Exit,
}

/// What a command that succeeded has done.
#[derive(Debug, PartialEq, Eq)]
pub enum Outcome {
    /// The key was found, with this value.
    Found(Vec<u8>),
    /// The pair was inserted.
    Inserted,
    /// The key was deleted.
    Deleted,
    /// The front end is to stop.
    Exit,
}

/// Why a line could not be split into words.
#[derive(Debug, Clone, Copy, PartialEq, Eq, Structural)]
pub enum ShellError {
    /// A quote is left open, or the line ends in a lone backslash.
    InvalidQuoting,
}

/// The words that `shlex::split` makes of a line, or `None` where it
/// finds the line's quoting at fault.
pub uninterp spec fn shell_words(line: Seq<char>) -> Option<Seq<Seq<char>>>;

/// `shlex::split`: splits a line into words by the quoting rules of a
/// POSIX shell. What it returns depends on the line alone.
#[verifier::external_body]
fn split_words(line: &str) -> (words: Option<Vec<String>>)
    ensures
        words.deep_view() == shell_words(line@),
{
    shlex::split(line)
}

/// The words of a line that was split, or the error for a line that could
/// not be.
pub fn words_or_error(words: Option<Vec<String>>) -> (checked: Result<Vec<String>, ShellError>)
    ensures
        match words {
            Some(found) => checked == Ok::<Vec<String>, ShellError>(found),
            None => checked == Err::<Vec<String>, ShellError>(ShellError::InvalidQuoting),
        },
{
    match words {
        Some(found) => Ok(found),
        None => Err(ShellError::InvalidQuoting),
    }
}

/// Splits a line of input into words.
pub fn tokenize(line: &str) -> (words: Result<Vec<String>, ShellError>)
    ensures
        match shell_words(line@) {
            Some(expected) => words matches Ok(found) && found.deep_view() == expected,
            None => words == Err::<Vec<String>, ShellError>(ShellError::InvalidQuoting),
        },
{
    words_or_error(split_words(line))
}

/// Runs one command on the store.
pub fn execute(command: &Command, store: &mut ActionKV) -> (outcome: Result<Outcome, KVError>)
    ensures
        match *command {
            Command::Get { key } => {
                &&& final(store)@ == old(store)@
                &&& match outcome {
                    Ok(Outcome::Found(value)) => old(store)@.lookup(key@) == Ok::<
                        Seq<u8>,
                        KVError,
                    >(value@),
                    Ok(_) => false,
                    Err(e) => old(store)@.lookup(key@) == Err::<Seq<u8>, KVError>(e),
                }
            },
            Command::Insert { key, value } => if old(store)@.room_for(key@, value@) {
                &&& outcome == Ok::<Outcome, KVError>(Outcome::Inserted)
                &&& final(store)@ == old(store)@.inserted(key@, value@)
            } else {
                &&& outcome == Err::<Outcome, KVError>(KVError::WriteError)
                &&& final(store)@ == old(store)@
            },
            Command::Delete { key } => if old(store)@.room_for(key@, Seq::<u8>::empty()) {
                &&& outcome == Ok::<Outcome, KVError>(Outcome::Deleted)
                &&& final(store)@ == old(store)@.deleted(key@)
            } else {
                &&& outcome == Err::<Outcome, KVError>(KVError::WriteError)
                &&& final(store)@ == old(store)@
            },
            Command::Exit => {
                &&& outcome == Ok::<Outcome, KVError>(Outcome::Exit)
                &&& final(store)@ == old(store)@
            },
        },
{
    match command {
        Command::Get { key } => {
            match store.get(key.as_slice()) {
                Ok(value) => Ok(Outcome::Found(value)),
                Err(e) => Err(e),
            }
        },
        Command::Insert { key, value } => {
            match store.insert(key.as_slice(), value.as_slice()) {
                Ok(()) => Ok(Outcome::Inserted),
                Err(e) => Err(e),
            }
        },
        Command::Delete { key } => {
            match store.delete(key.as_slice()) {
                Ok(()) => Ok(Outcome::Deleted),
                Err(e) => Err(e),
            }
        },
        Command::Exit => Ok(Outcome::Exit),
    }
}

} // verus!
