use libactionkv::{encode, ActionKV, KeyValuePair, LogReader, RecordError};

#[test]
fn encode_lays_out_lengths_then_key_then_value() {
    let record = encode(&[0xAA], &[130, 140, 150]).unwrap();
    assert_eq!(record, vec![1, 0, 0, 0, 3, 0, 0, 0, 0xAA, 130, 140, 150]);
}

#[test]
fn encode_of_empty_key_and_value_is_a_bare_header() {
    let record = encode(&[], &[]).unwrap();
    assert_eq!(record, vec![0u8; 8]);
}

#[test]
fn encode_writes_lengths_least_significant_byte_first() {
    let key = vec![7u8; 258];
    let value = vec![9u8; 66051];
    let record = encode(&key, &value).unwrap();
    assert_eq!(&record[0..4], &[0x02, 0x01, 0x00, 0x00]);
    assert_eq!(&record[4..8], &[0x03, 0x02, 0x01, 0x00]);
    assert_eq!(record.len(), 8 + 258 + 66051);
    assert_eq!(&record[8..266], &key[..]);
    assert_eq!(&record[266..], &value[..]);
}

#[test]
fn decode_reads_lengths_least_significant_byte_first() {
    let mut data = vec![0x02, 0x01, 0x00, 0x00, 0x01, 0x00, 0x00, 0x00];
    data.extend(vec![5u8; 258]);
    data.push(6);
    let mut reader = LogReader::new(&data);
    let pair = ActionKV::process_record(&mut reader).unwrap();
    assert_eq!(pair.key, vec![5u8; 258]);
    assert_eq!(pair.value, vec![6u8]);
    assert_eq!(reader.position(), 267);
}

#[test]
fn decode_gives_back_what_encode_was_given() {
    let record = encode(b"key", b"some value").unwrap();
    let mut reader = LogReader::new(&record);
    let pair = ActionKV::process_record(&mut reader).unwrap();
    assert_eq!(pair, KeyValuePair { key: b"key".to_vec(), value: b"some value".to_vec() });
    assert_eq!(reader.position(), record.len() as u64);
}

#[test]
fn two_records_then_the_end_of_the_stream() {
    let data = vec![
        0x01, 0, 0, 0, 0x01, 0, 0, 0, 0xAA, 0xBB, 0x01, 0, 0, 0, 0x02, 0, 0, 0, 0xCC, 0xDD, 0xEE,
    ];
    let mut reader = LogReader::new(&data);
    assert_eq!(reader.position(), 0);
    let first = ActionKV::process_record(&mut reader).unwrap();
    assert_eq!(first, KeyValuePair { key: vec![0xAA], value: vec![0xBB] });
    assert_eq!(reader.position(), 10);
    let second = ActionKV::process_record(&mut reader).unwrap();
    assert_eq!(second, KeyValuePair { key: vec![0xCC], value: vec![0xDD, 0xEE] });
    assert_eq!(reader.position(), 21);
    assert_eq!(ActionKV::process_record(&mut reader), Err(RecordError::EndOfStream));
    assert_eq!(reader.position(), 21);
}

#[test]
fn an_empty_log_is_at_its_end() {
    let data: Vec<u8> = Vec::new();
    let mut reader = LogReader::new(&data);
    assert_eq!(ActionKV::process_record(&mut reader), Err(RecordError::EndOfStream));
}

#[test]
fn a_position_beyond_the_end_is_the_end_of_the_stream() {
    let data = vec![0u8; 8];
    let mut reader = LogReader::new(&data);
    reader.seek(1000);
    assert_eq!(ActionKV::process_record(&mut reader), Err(RecordError::EndOfStream));
    assert_eq!(reader.position(), 1000);
}

#[test]
fn a_short_header_is_corrupt() {
    for len in 1..8usize {
        let data = vec![0u8; len];
        let mut reader = LogReader::new(&data);
        assert_eq!(ActionKV::process_record(&mut reader), Err(RecordError::Corrupt));
        assert_eq!(reader.position(), 0);
    }
}

#[test]
fn a_short_body_is_corrupt() {
    let data = vec![2, 0, 0, 0, 3, 0, 0, 0, 0xCC, 0xCD, 0xDD, 0xEE];
    let mut reader = LogReader::new(&data);
    assert_eq!(ActionKV::process_record(&mut reader), Err(RecordError::Corrupt));
    assert_eq!(reader.position(), 0);
}

#[test]
fn a_length_that_fills_the_field_is_corrupt_on_a_short_log() {
    let data = vec![0xFF, 0xFF, 0xFF, 0xFF, 0xFF, 0xFF, 0xFF, 0xFF, 1, 2, 3];
    let mut reader = LogReader::new(&data);
    assert_eq!(ActionKV::process_record(&mut reader), Err(RecordError::Corrupt));
}

#[test]
fn seek_moves_the_reader_to_a_record() {
    let data = vec![
        0x01, 0, 0, 0, 0x01, 0, 0, 0, 0xAA, 0xBB, 0x01, 0, 0, 0, 0x02, 0, 0, 0, 0xCC, 0xDD, 0xEE,
    ];
    let mut reader = LogReader::new(&data);
    reader.seek(10);
    let pair = ActionKV::process_record(&mut reader).unwrap();
    assert_eq!(pair, KeyValuePair { key: vec![0xCC], value: vec![0xDD, 0xEE] });
}
