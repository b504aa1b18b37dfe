use libactionkv::shell::words_or_error;
use libactionkv::{execute, tokenize, ActionKV, Command, KVError, Outcome, ShellError};

#[test]
fn tokenize_splits_at_blanks() {
    let words = tokenize("set colour blue").unwrap();
    assert_eq!(words, vec!["set", "colour", "blue"]);
}

#[test]
fn tokenize_keeps_quoted_blanks() {
    let words = tokenize("set 'my key' \"my value\"").unwrap();
    assert_eq!(words, vec!["set", "my key", "my value"]);
}

#[test]
fn tokenize_of_an_empty_line_gives_no_word() {
    assert_eq!(tokenize("").unwrap(), Vec::<String>::new());
}

#[test]
fn tokenize_rejects_an_open_quote() {
    assert_eq!(tokenize("get \"key"), Err(ShellError::InvalidQuoting));
}

#[test]
fn words_or_error_passes_words_on() {
    let words = vec![String::from("get"), String::from("a")];
    assert_eq!(words_or_error(Some(words.clone())), Ok(words));
    assert_eq!(words_or_error(None), Err(ShellError::InvalidQuoting));
}

#[test]
fn execute_runs_each_command() {
    let mut store = ActionKV::open(Vec::new());
    let set = Command::Insert { key: b"a".to_vec(), value: b"1".to_vec() };
    assert_eq!(execute(&set, &mut store), Ok(Outcome::Inserted));
    let get = Command::Get { key: b"a".to_vec() };
    assert_eq!(execute(&get, &mut store), Ok(Outcome::Found(b"1".to_vec())));
    let del = Command::Delete { key: b"a".to_vec() };
    assert_eq!(execute(&del, &mut store), Ok(Outcome::Deleted));
    assert_eq!(execute(&get, &mut store), Ok(Outcome::Found(Vec::new())));
    assert_eq!(execute(&Command::Exit, &mut store), Ok(Outcome::Exit));
    assert_eq!(store.log().len(), 10 + 9);
}

#[test]
fn execute_reports_an_unknown_key() {
    let mut store = ActionKV::open(Vec::new());
    let get = Command::Get { key: b"nothing".to_vec() };
    assert_eq!(execute(&get, &mut store), Err(KVError::IndexError));
    assert!(store.log().is_empty());
}
