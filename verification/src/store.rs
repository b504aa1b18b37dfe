//! The store: a log of records and the index over it.
//!
//! The log only grows: a record, once appended, is never changed or
//! removed. A key is deleted by appending a record with an empty value.
//! The index can always be built again by reading the log from its start.

use crate::codec::{
    decode_at, encodable, encode, encoded_len, encoding, lemma_u32_le_round_trip, read_u32_le,
    u32_from_le, u32_to_le, Decoded, KeyValuePair, LogReader, RecordError, HEADER_LEN,
};
use crate::error::KVError;
use crate::index::Index;
use vstd::prelude::*;
use vstd::slice::{slice_subrange, slice_to_vec};

verus! {

/// The most bytes that a log in memory can hold.
pub open spec fn max_log_len() -> nat {
    isize::MAX as nat
}

/// Whether a whole record with the key `key` stands at `pos` in `log`.
pub open spec fn holds_key(log: Seq<u8>, pos: nat, key: Seq<u8>) -> bool {
    decode_at(log, pos) matches Decoded::Record { key: found, .. } && found == key
}

/// The index after reading `log` from `pos` on, starting out with `index`:
/// each whole record sets the offset of its key, up to the end of the log or
/// the first place where no whole record stands.
pub open spec fn replay(log: Seq<u8>, pos: nat, index: Map<Seq<u8>, u64>) -> Map<Seq<u8>, u64>
    decreases log.len() - pos,
{
    match decode_at(log, pos) {
        Decoded::Record { key, value, next } => replay(log, next, index.insert(key, pos as u64)),
        _ => index,
    }
}

/// Whether `log` from `pos` on is made of whole records only.
pub open spec fn whole_from(log: Seq<u8>, pos: nat) -> bool
    decreases log.len() - pos,
{
    match decode_at(log, pos) {
        Decoded::Record { key, value, next } => whole_from(log, next),
        Decoded::EndOfStream => true,
        Decoded::Corrupt => false,
    }
}

/// What a store is made of: the bytes of its log, and its index.
pub struct StoreView {
    pub log: Seq<u8>,
    pub index: Map<Seq<u8>, u64>,
}

impl StoreView {
    /// Whether each offset in the index is one where a whole record of its
    /// key stands in the log.
    pub open spec fn consistent(self) -> bool {
        forall|key: Seq<u8>| #[trigger]
            self.index.contains_key(key) ==> holds_key(self.log, self.index[key] as nat, key)
    }

    /// Whether a record for `key` and `value` can be appended.
    pub open spec fn room_for(self, key: Seq<u8>, value: Seq<u8>) -> bool {
        encodable(key, value) && self.log.len() + encoded_len(key, value) <= max_log_len()
    }

    /// The store after appending a record for `key` and `value`.
    pub open spec fn inserted(self, key: Seq<u8>, value: Seq<u8>) -> StoreView {
        StoreView {
            log: self.log + encoding(key, value),
            index: self.index.insert(key, self.log.len() as u64),
        }
    }

    /// The store after deleting `key`: a record with an empty value is appended.
    pub open spec fn deleted(self, key: Seq<u8>) -> StoreView {
        self.inserted(key, Seq::<u8>::empty())
    }

    /// The store after reading its log from the start into its index.
    pub open spec fn loaded(self) -> StoreView {
        StoreView { log: self.log, index: replay(self.log, 0, self.index) }
    }

    /// What looking up `key` gives: the value of the record at the key's offset.
    pub open spec fn lookup(self, key: Seq<u8>) -> Result<Seq<u8>, KVError> {
        if !self.index.contains_key(key) {
            Err(KVError::IndexError)
        } else {
            match decode_at(self.log, self.index[key] as nat) {
                Decoded::Record { key: found, value, next } => Ok(value),
                _ => Err(KVError::ProcessRecordError),
            }
        }
    }
}

/// The length that the four bytes at `at` spell.
spec fn u32_len(log: Seq<u8>, at: int) -> int {
    u32_from_le(log.subrange(at, at + 4)) as int
}

/// A record that stands in a log still stands there, unchanged, after
/// more bytes are appended.
pub proof fn lemma_append_keeps_record(log: Seq<u8>, more: Seq<u8>, pos: nat)
    requires
        decode_at(log, pos) is Record,
    ensures
        decode_at(log + more, pos) == decode_at(log, pos),
{
    let longer = log + more;
    let at = pos as int;
    assert(longer.subrange(at, at + 4) =~= log.subrange(at, at + 4));
    assert(longer.subrange(at + 4, at + 8) =~= log.subrange(at + 4, at + 8));
    let key_len = u32_len(log, at);
    let value_len = u32_len(log, at + 4);
    let key_end = at + HEADER_LEN + key_len;
    assert(longer.subrange(at + HEADER_LEN, key_end) =~= log.subrange(at + HEADER_LEN, key_end));
    assert(longer.subrange(key_end, key_end + value_len) =~= log.subrange(
        key_end,
        key_end + value_len,
    ));
}

/// A record that was appended to a log is read back at the offset where
/// the log ended before.
pub proof fn lemma_appended_record(log: Seq<u8>, key: Seq<u8>, value: Seq<u8>)
    requires
        encodable(key, value),
    ensures
        decode_at(log + encoding(key, value), log.len()) == (Decoded::Record {
            key,
            value,
            next: log.len() + encoded_len(key, value),
        }),
        (log + encoding(key, value)).len() == log.len() + encoded_len(key, value),
{
    let record = encoding(key, value);
    let longer = log + record;
    let at = log.len() as int;
    lemma_u32_le_round_trip(key.len() as u32);
    lemma_u32_le_round_trip(value.len() as u32);
    assert(longer.subrange(at, at + 4) =~= u32_to_le(key.len() as u32));
    assert(longer.subrange(at + 4, at + 8) =~= u32_to_le(value.len() as u32));
    let key_end = at + HEADER_LEN + key.len();
    assert(longer.subrange(at + HEADER_LEN, key_end) =~= key);
    assert(longer.subrange(key_end, key_end + value.len()) =~= value);
}

/// Appending a record for a key and setting the key's offset to where the
/// record starts keeps a store consistent.
pub proof fn lemma_inserted_consistent(store: StoreView, key: Seq<u8>, value: Seq<u8>)
    requires
        store.consistent(),
        store.room_for(key, value),
    ensures
        store.inserted(key, value).consistent(),
{
    let after = store.inserted(key, value);
    lemma_appended_record(store.log, key, value);
    assert forall|k: Seq<u8>| #[trigger] after.index.contains_key(k) implies holds_key(
        after.log,
        after.index[k] as nat,
        k,
    ) by {
        if k != key {
            assert(store.index.contains_key(k));
            lemma_append_keeps_record(store.log, encoding(key, value), store.index[k] as nat);
        }
    }
}

/// A log-structured key-value store.
#[derive(Debug)]
pub struct ActionKV {
    log: Vec<u8>,
    index: Index,
}

impl View for ActionKV {
    type V = StoreView;

    closed spec fn view(&self) -> StoreView {
        StoreView { log: self.log@, index: self.index@ }
    }
}

impl ActionKV {
    #[verifier::type_invariant]
    spec fn well_formed(self) -> bool {
        self@.consistent()
    }

    /// A store over the log `data`, with an empty index: no record of the
    /// log is looked at.
    pub fn open(data: Vec<u8>) -> (store: ActionKV)
        ensures
            store@.log == data@,
            store@.index == Map::<Seq<u8>, u64>::empty(),
            store@.consistent(),
    {
        ActionKV { log: data, index: Index::new() }
    }

    /// The bytes of the log.
    pub fn log(&self) -> (bytes: &[u8])
        ensures
            bytes@ == self@.log,
    {
        self.log.as_slice()
    }

    /// The index.
    pub fn index(&self) -> (index: &Index)
        ensures
            index@ == self@.index,
    {
        &self.index
    }

    /// Reads the record at the reader's position and moves the reader behind
    /// it. Where no whole record stands there, the reader stays where it is.
    pub fn process_record(f: &mut LogReader) -> (record: Result<KeyValuePair, RecordError>)
        ensures
            final(f).data@ == old(f).data@,
            match decode_at(old(f).data@, old(f).pos as nat) {
                Decoded::Record { key, value, next } => {
                    &&& record matches Ok(pair)
                    &&& pair.key@ == key
                    &&& pair.value@ == value
                    &&& final(f).pos == next
                },
                Decoded::EndOfStream => {
                    &&& record == Err::<KeyValuePair, RecordError>(RecordError::EndOfStream)
                    &&& final(f).pos == old(f).pos
                },
                Decoded::Corrupt => {
                    &&& record == Err::<KeyValuePair, RecordError>(RecordError::Corrupt)
                    &&& final(f).pos == old(f).pos
                },
            },
    {
        let data = f.data;
        let len = data.len();
        if f.pos >= len as u64 {
            return Err(RecordError::EndOfStream);
        }
        let at = f.pos as usize;
        let rest = len - at;
        if rest < HEADER_LEN {
            return Err(RecordError::Corrupt);
        }
        let key_len = read_u32_le(slice_subrange(data, at, at + 4)) as usize;
        let value_len = read_u32_le(slice_subrange(data, at + 4, at + 8)) as usize;
        let body = rest - HEADER_LEN;
        if key_len > body || value_len > body - key_len {
            return Err(RecordError::Corrupt);
        }
        let key_end = at + HEADER_LEN + key_len;
        let key = slice_to_vec(slice_subrange(data, at + HEADER_LEN, key_end));
        let value = slice_to_vec(slice_subrange(data, key_end, key_end + value_len));
        f.pos = (key_end + value_len) as u64;
        Ok(KeyValuePair { key, value })
    }

    /// A store over the log `data`, with the index that reading the whole
    /// log gives. It fails where the log is not made of whole records only.
    pub fn new(data: Vec<u8>) -> (made: Result<ActionKV, KVError>)
        ensures
            match made {
                Ok(store) => {
                    &&& whole_from(data@, 0)
                    &&& store@.log == data@
                    &&& store@.index == replay(data@, 0, Map::<Seq<u8>, u64>::empty())
                    &&& store@.consistent()
                },
                Err(e) => e == KVError::ProcessRecordError && !whole_from(data@, 0),
            },
    {
        let mut store = ActionKV::open(data);
        match store.load() {
            Ok(()) => Ok(store),
            Err(e) => Err(e),
        }
    }

    /// Reads the log from its start and sets, for each record, the offset
    /// of its key. Reading ends without an error at the end of the log, and
    /// with `ProcessRecordError` at the first place where bytes are left
    /// that make up no whole record; the offsets set until then stay.
    pub fn load(&mut self) -> (done: Result<(), KVError>)
        ensures
            final(self)@ == old(self)@.loaded(),
            final(self)@.consistent(),
            done is Ok <==> whole_from(old(self)@.log, 0),
            done is Err ==> done == Err::<(), KVError>(KVError::ProcessRecordError),
    {
        proof {
            use_type_invariant(&*self);
        }
        let ghost log = self.log@;
        let ghost start = self.index@;
        // The index leaves the store while it is filled, and comes back whole.
        let mut index = Index::new();
        std::mem::swap(&mut index, &mut self.index);
        let mut f = LogReader::new(self.log.as_slice());
        let mut done: Result<(), KVError> = Ok(());
        loop
            invariant_except_break
                done is Ok,
                whole_from(log, f.pos as nat) == whole_from(log, 0),
            invariant
                f.data@ == log,
                f.pos <= log.len(),
                replay(log, f.pos as nat, index@) == replay(log, 0, start),
                (StoreView { log, index: index@ }).consistent(),
            ensures
                index@ == replay(log, 0, start),
                done is Ok <==> whole_from(log, 0),
                done is Err ==> done == Err::<(), KVError>(KVError::ProcessRecordError),
            decreases log.len() - f.pos,
        {
            let position = f.position();
            match ActionKV::process_record(&mut f) {
                Ok(pair) => {
                    let ghost before = index@;
                    let ghost key = pair.key@;
                    index.set(pair.key, position);
                    assert forall|k: Seq<u8>| #[trigger]
                        index@.contains_key(k) implies holds_key(log, index@[k] as nat, k) by {
                        if k != key {
                            assert((StoreView { log, index: before }).index.contains_key(k));
                        }
                    }
                },
                Err(RecordError::EndOfStream) => {
                    break ;
                },
                Err(RecordError::Corrupt) => {
                    done = Err(KVError::ProcessRecordError);
                    break ;
                },
            }
        }
        self.index = index;
        done
    }

    /// Appends a record for `key` and `value` to the log and sets the offset
    /// of `key` to where that record starts. It fails, and changes nothing,
    /// where a length does not fit into the record's header or the log
    /// would grow beyond what memory can hold.
    pub fn insert(&mut self, key: &[u8], value: &[u8]) -> (done: Result<(), KVError>)
        ensures
            match done {
                Ok(()) => {
                    &&& old(self)@.room_for(key@, value@)
                    &&& final(self)@ == old(self)@.inserted(key@, value@)
                },
                Err(e) => {
                    &&& e == KVError::WriteError
                    &&& !old(self)@.room_for(key@, value@)
                    &&& final(self)@ == old(self)@
                },
            },
            final(self)@.consistent(),
    {
        proof {
            use_type_invariant(&*self);
        }
        let record = match encode(key, value) {
            Some(record) => record,
            None => {
                return Err(KVError::WriteError);
            },
        };
        if self.log.len() > isize::MAX as usize || record.len() > isize::MAX as usize
            - self.log.len() {
            return Err(KVError::WriteError);
        }
        let position = self.log.len() as u64;
        proof {
            lemma_inserted_consistent(self@, key@, value@);
        }
        // Log and index leave the store while they change, and come back whole.
        let mut index = Index::new();
        std::mem::swap(&mut index, &mut self.index);
        let mut log: Vec<u8> = Vec::new();
        std::mem::swap(&mut log, &mut self.log);
        log.extend_from_slice(record.as_slice());
        index.set(slice_to_vec(key), position);
        assert(log@ =~= old(self)@.log + encoding(key@, value@));
        self.log = log;
        self.index = index;
        Ok(())
    }

    /// The value of the latest record for `key`.
    pub fn get(&self, key: &[u8]) -> (found: Result<Vec<u8>, KVError>)
        ensures
            self@.consistent(),
            match found {
                Ok(value) => self@.lookup(key@) == Ok::<Seq<u8>, KVError>(value@),
                Err(e) => self@.lookup(key@) == Err::<Seq<u8>, KVError>(e),
            },
    {
        proof {
            use_type_invariant(self);
        }
        let position = match self.index.get(key) {
            Some(position) => position,
            None => {
                return Err(KVError::IndexError);
            },
        };
        let mut f = LogReader::new(self.log.as_slice());
        f.seek(position);
        match ActionKV::process_record(&mut f) {
            Ok(pair) => Ok(pair.value),
            Err(_) => Err(KVError::ProcessRecordError),
        }
    }

    /// Deletes `key` by inserting it with an empty value.
    pub fn delete(&mut self, key: &[u8]) -> (done: Result<(), KVError>)
        ensures
            match done {
                Ok(()) => {
                    &&& old(self)@.room_for(key@, Seq::<u8>::empty())
                    &&& final(self)@ == old(self)@.deleted(key@)
                },
                Err(e) => {
                    &&& e == KVError::WriteError
                    &&& !old(self)@.room_for(key@, Seq::<u8>::empty())
                    &&& final(self)@ == old(self)@
                },
            },
            final(self)@.consistent(),
    {
        let empty: [u8; 0] = [];
        self.insert(key, empty.as_slice())
    }
}

} // verus!
