use libactionkv::{ActionKV, KVError, KeyValuePair, LogReader, RecordError};

fn two_records() -> Vec<u8> {
    vec![
        1, 0, 0, 0, 1, 0, 0, 0, 0xAA, 0xBB, 2, 0, 0, 0, 3, 0, 0, 0, 0xCC, 0xCD, 0xDD, 0xEE, 0xFF,
    ]
}

fn get_test_action_kv() -> ActionKV {
    ActionKV::new(two_records()).unwrap()
}

#[test]
fn actionkv_delete() {
    let mut store = get_test_action_kv();
    store.load().unwrap();
    let result = store.delete(&[0xAA]);
    assert!(result.is_ok());
}

#[test]
fn actionkv_get() {
    let mut store = get_test_action_kv();
    store.load().unwrap();
    let result = store.get(&[0xAA]);
    assert!(result.is_ok());
    assert_eq!(result.unwrap(), &[0xBB]);
    let result = store.get(&[0xCC, 0xCD]);
    assert!(result.is_ok());
    assert_eq!(result.unwrap(), &[0xDD, 0xEE, 0xFF]);
}

#[test]
fn actionkv_open() {
    let store = ActionKV::open(b"abcd\n".to_vec());
    assert_eq!(store.log(), b"abcd\n");
    assert!(store.index().is_empty());
}

#[test]
fn actionkv_insert() {
    let mut store = ActionKV::open(Vec::new());
    store.insert(&[0xAA], &[130, 140, 150]).unwrap();
    store.insert(&[0xBB], &[180, 190, 200]).unwrap();

    assert_eq!(store.index().get(&[0xAA]).unwrap(), 0u64);
    assert_eq!(store.index().get(&[0xBB]).unwrap(), 12u64);

    assert_eq!(store.log().len(), 24);
}

#[test]
fn actionkv_load_no_such_file() {
    let mut store = ActionKV::open(Vec::new());
    let result = store.load();
    assert!(result.is_ok());
    assert!(store.index().is_empty());
}

#[test]
fn actionkv_process_record() {
    let data = vec![
        1, 0, 0, 0, 1, 0, 0, 0, 0xAA, 0xBB, 1, 0, 0, 0, 2, 0, 0, 0, 0xCC, 0xDD, 0xEE,
    ];
    let mut buffer = LogReader::new(&data);
    let kv_pair = ActionKV::process_record(&mut buffer);
    assert!(kv_pair.is_ok());
    assert_eq!(kv_pair.unwrap(), KeyValuePair { key: vec![0xAA], value: vec![0xBB] });

    let kv_pair = ActionKV::process_record(&mut buffer);
    assert!(kv_pair.is_ok());
    assert_eq!(kv_pair.unwrap(), KeyValuePair { key: vec![0xCC], value: vec![0xDD, 0xEE] });

    let kv_pair = ActionKV::process_record(&mut buffer);
    assert!(kv_pair.is_err_and(|x| x == RecordError::EndOfStream));
}

#[test]
fn actionkv_load() {
    let mut store = get_test_action_kv();
    let key: &[u8] = &[0xCCu8, 0xCD];
    let result = store.load();
    assert!(result.is_ok());
    let data = store.index().get(key).unwrap();
    assert_eq!(data, 10);
}

#[test]
fn new_rejects_a_truncated_log() {
    let mut data = two_records();
    data.pop();
    assert_eq!(ActionKV::new(data).unwrap_err(), KVError::ProcessRecordError);
}

#[test]
fn new_on_an_empty_log_gives_an_empty_store() {
    let store = ActionKV::new(Vec::new()).unwrap();
    assert!(store.index().is_empty());
    assert!(store.log().is_empty());
}

#[test]
fn new_rejects_a_log_that_holds_no_records() {
    assert_eq!(ActionKV::new(b"abcd\n".to_vec()).unwrap_err(), KVError::ProcessRecordError);
}

#[test]
fn insert_appends_the_records_one_after_the_other() {
    let mut store = ActionKV::open(Vec::new());
    store.insert(&[0xAA], &[130, 140, 150]).unwrap();
    store.insert(&[0xBB], &[180, 190, 200]).unwrap();
    assert_eq!(
        store.log(),
        &[
            1, 0, 0, 0, 3, 0, 0, 0, 0xAA, 130, 140, 150, 1, 0, 0, 0, 3, 0, 0, 0, 0xBB, 180, 190,
            200
        ]
    );
}

#[test]
fn what_insert_wrote_can_be_loaded_again() {
    let mut store = ActionKV::open(Vec::new());
    store.insert(b"a", b"1").unwrap();
    store.insert(b"b", b"2").unwrap();
    store.insert(b"a", b"3").unwrap();
    store.delete(b"b").unwrap();
    let again = ActionKV::new(store.log().to_vec()).unwrap();
    assert_eq!(again.index().get(b"a"), store.index().get(b"a"));
    assert_eq!(again.index().get(b"b"), store.index().get(b"b"));
    assert_eq!(again.get(b"a"), Ok(b"3".to_vec()));
    assert_eq!(again.get(b"b"), Ok(Vec::new()));
}
