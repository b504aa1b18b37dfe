//! What holds of the store's operations taken together.
//!
//! Each law is stated over [`StoreView`], the model in which the contracts
//! of [`crate::store::ActionKV`] say what its methods do, and is proved here.

use crate::codec::{decode_at, encodable, encoded_len, encoding, Decoded};
use crate::error::KVError;
use crate::store::{
    holds_key, lemma_append_keeps_record, lemma_appended_record, replay, whole_from, StoreView,
};
use vstd::prelude::*;

verus! {

/// A store with the log `log` and an empty index.
pub open spec fn opened(log: Seq<u8>) -> StoreView {
    StoreView { log, index: Map::<Seq<u8>, u64>::empty() }
}

/// The store after inserting each pair of `writes` in turn.
pub open spec fn after_writes(store: StoreView, writes: Seq<(Seq<u8>, Seq<u8>)>) -> StoreView
    decreases writes.len(),
{
    if writes.len() == 0 {
        store
    } else {
        after_writes(store, writes.drop_last()).inserted(writes.last().0, writes.last().1)
    }
}

/// Whether a record with the key `key` is among the whole records that
/// stand in `log` one after the other from `pos` on.
pub open spec fn has_record_of(log: Seq<u8>, pos: nat, key: Seq<u8>) -> bool
    decreases log.len() - pos,
{
    match decode_at(log, pos) {
        Decoded::Record { key: found, value, next } => found == key || has_record_of(
            log,
            next,
            key,
        ),
        _ => false,
    }
}

/// Round trip: once a pair is inserted, looking up the key gives the value.
pub proof fn law_round_trip(store: StoreView, key: Seq<u8>, value: Seq<u8>)
    requires
        store.room_for(key, value),
    ensures
        store.inserted(key, value).lookup(key) == Ok::<Seq<u8>, KVError>(value),
{
    lemma_appended_record(store.log, key, value);
}

/// An insertion appends: the log grows by the record and keeps all it held.
pub proof fn law_insert_appends(store: StoreView, key: Seq<u8>, value: Seq<u8>)
    requires
        store.room_for(key, value),
    ensures
        store.inserted(key, value).log.len() == store.log.len() + encoded_len(key, value),
        store.inserted(key, value).log.len() > store.log.len(),
        store.inserted(key, value).log.subrange(0, store.log.len() as int) == store.log,
{
    lemma_appended_record(store.log, key, value);
    assert(store.inserted(key, value).log.subrange(0, store.log.len() as int) =~= store.log);
}

/// Last write wins: after two insertions for one key, looking up the key
/// gives the second value, while the record of the first still stands in
/// the log where it was appended. Each insertion made the log longer.
pub proof fn law_last_write_wins(store: StoreView, key: Seq<u8>, v1: Seq<u8>, v2: Seq<u8>)
    requires
        store.room_for(key, v1),
        store.inserted(key, v1).room_for(key, v2),
    ensures
        store.inserted(key, v1).inserted(key, v2).lookup(key) == Ok::<Seq<u8>, KVError>(v2),
        decode_at(store.inserted(key, v1).inserted(key, v2).log, store.log.len())
            == (Decoded::Record {
            key,
            value: v1,
            next: store.log.len() + encoded_len(key, v1),
        }),
        store.log.len() < store.inserted(key, v1).log.len() < store.inserted(key, v1).inserted(
            key,
            v2,
        ).log.len(),
{
    let first = store.inserted(key, v1);
    lemma_appended_record(store.log, key, v1);
    lemma_appended_record(first.log, key, v2);
    lemma_append_keeps_record(first.log, encoding(key, v2), store.log.len());
}

/// Tombstone: after a key is deleted, looking it up succeeds and gives the
/// empty value.
pub proof fn law_deleted_key_is_empty(store: StoreView, key: Seq<u8>)
    requires
        store.room_for(key, Seq::<u8>::empty()),
    ensures
        store.deleted(key).lookup(key) == Ok::<Seq<u8>, KVError>(Seq::<u8>::empty()),
{
    law_round_trip(store, key, Seq::<u8>::empty());
}

/// Unknown key, over insertions: a key that the index does not hold, and
/// that none of the insertions made since is for, is not found.
pub proof fn law_unknown_key(store: StoreView, writes: Seq<(Seq<u8>, Seq<u8>)>, key: Seq<u8>)
    requires
        !store.index.contains_key(key),
        forall|i: int| 0 <= i < writes.len() ==> (#[trigger] writes[i]).0 != key,
    ensures
        after_writes(store, writes).lookup(key) == Err::<Seq<u8>, KVError>(KVError::IndexError),
    decreases writes.len(),
{
    if writes.len() > 0 {
        let earlier = writes.drop_last();
        assert forall|i: int| 0 <= i < earlier.len() implies (#[trigger] earlier[i]).0 != key by {
            assert(earlier[i] == writes[i]);
        }
        law_unknown_key(store, earlier, key);
        assert(writes.last() == writes[writes.len() - 1]);
    }
}

/// Unknown key, over a log: reading a log sets an offset for exactly the
/// keys of its records, so a key of which the log has no record is not
/// found in a store that was made from the log alone.
pub proof fn law_unknown_key_after_load(log: Seq<u8>, key: Seq<u8>)
    requires
        !has_record_of(log, 0, key),
    ensures
        opened(log).loaded().lookup(key) == Err::<Seq<u8>, KVError>(KVError::IndexError),
{
    lemma_replay_keys(log, 0, Map::<Seq<u8>, u64>::empty(), key);
}

/// Reading a log adds to the index the keys of the log's records, and no other.
pub proof fn lemma_replay_keys(log: Seq<u8>, pos: nat, index: Map<Seq<u8>, u64>, key: Seq<u8>)
    ensures
        replay(log, pos, index).contains_key(key) <==> index.contains_key(key) || has_record_of(
            log,
            pos,
            key,
        ),
    decreases log.len() - pos,
{
    match decode_at(log, pos) {
        Decoded::Record { key: found, value, next } => {
            lemma_replay_keys(log, next, index.insert(found, pos as u64), key);
        },
        _ => {},
    }
}

/// Reading a log into an index gives that index, overlaid with what
/// reading the log into an empty index gives.
pub proof fn lemma_replay_overlays(log: Seq<u8>, pos: nat, index: Map<Seq<u8>, u64>)
    ensures
        replay(log, pos, index) == index.union_prefer_right(
            replay(log, pos, Map::<Seq<u8>, u64>::empty()),
        ),
    decreases log.len() - pos,
{
    let empty = Map::<Seq<u8>, u64>::empty();
    match decode_at(log, pos) {
        Decoded::Record { key, value, next } => {
            let one = empty.insert(key, pos as u64);
            lemma_replay_overlays(log, next, index.insert(key, pos as u64));
            lemma_replay_overlays(log, next, one);
            let rest = replay(log, next, empty);
            assert(index.insert(key, pos as u64).union_prefer_right(rest)
                =~= index.union_prefer_right(one.union_prefer_right(rest)));
        },
        _ => {
            assert(index =~= index.union_prefer_right(empty));
        },
    }
}

/// Replay idempotence: reading the log into the index a second time
/// changes nothing. (What one reading gives is `replay`, a function of the
/// log and the index it starts from alone.)
pub proof fn law_replay_idempotent(store: StoreView)
    ensures
        store.loaded().loaded() == store.loaded(),
{
    let empty = Map::<Seq<u8>, u64>::empty();
    let once = replay(store.log, 0, store.index);
    let delta = replay(store.log, 0, empty);
    lemma_replay_overlays(store.log, 0, store.index);
    lemma_replay_overlays(store.log, 0, once);
    assert(once.union_prefer_right(delta) =~= once);
}

/// What stands right behind a prefix of whole bytes is what stands at the
/// start of the rest, moved by the length of the prefix.
pub proof fn lemma_decode_behind(prefix: Seq<u8>, rest: Seq<u8>)
    ensures
        decode_at(prefix + rest, prefix.len()) == match decode_at(rest, 0) {
            Decoded::Record { key, value, next } => Decoded::Record {
                key,
                value,
                next: prefix.len() + next,
            },
            Decoded::EndOfStream => Decoded::EndOfStream,
            Decoded::Corrupt => Decoded::Corrupt,
        },
{
    let log = prefix + rest;
    let at = prefix.len() as int;
    if rest.len() >= 8 {
        assert(log.subrange(at, at + 4) =~= rest.subrange(0, 4));
        assert(log.subrange(at + 4, at + 8) =~= rest.subrange(4, 8));
        if let Decoded::Record { key, value, next } = decode_at(rest, 0) {
            let key_end = 8 + key.len();
            assert(log.subrange(at + 8, at + key_end) =~= rest.subrange(8, key_end as int));
            assert(log.subrange(at + key_end, at + next) =~= rest.subrange(
                key_end as int,
                next as int,
            ));
        }
    }
}

/// Reading a log that starts with whole records first reads those, as if
/// nothing came behind them, and then goes on behind them.
pub proof fn lemma_replay_prefix(
    prefix: Seq<u8>,
    rest: Seq<u8>,
    pos: nat,
    index: Map<Seq<u8>, u64>,
)
    requires
        pos <= prefix.len(),
        whole_from(prefix, pos),
    ensures
        replay(prefix + rest, pos, index) == replay(
            prefix + rest,
            prefix.len(),
            replay(prefix, pos, index),
        ),
        whole_from(prefix + rest, pos) == whole_from(prefix + rest, prefix.len()),
    decreases prefix.len() - pos,
{
    match decode_at(prefix, pos) {
        Decoded::Record { key, value, next } => {
            lemma_append_keeps_record(prefix, rest, pos);
            lemma_replay_prefix(prefix, rest, next, index.insert(key, pos as u64));
        },
        _ => {},
    }
}

/// Truncation tolerance: where whole records are followed by bytes that
/// make up no whole record (a header with fewer bytes behind it than it
/// declares, or less than a header), reading the log gives the index that
/// the whole records alone give, and reports that the log is not whole.
pub proof fn law_truncation_tolerance(
    whole: Seq<u8>,
    tail: Seq<u8>,
    index: Map<Seq<u8>, u64>,
)
    requires
        whole_from(whole, 0),
        decode_at(tail, 0) is Corrupt,
    ensures
        replay(whole + tail, 0, index) == replay(whole, 0, index),
        !whole_from(whole + tail, 0),
{
    lemma_replay_prefix(whole, tail, 0, index);
    lemma_decode_behind(whole, tail);
}

/// The index can be rebuilt from the log: where the index of a store is
/// what reading its log gives, it still is after an insertion.
pub proof fn law_index_follows_log(store: StoreView, key: Seq<u8>, value: Seq<u8>)
    requires
        store.room_for(key, value),
        whole_from(store.log, 0),
        store.index == opened(store.log).loaded().index,
    ensures
        whole_from(store.inserted(key, value).log, 0),
        store.inserted(key, value).index == opened(
            store.inserted(key, value).log,
        ).loaded().index,
{
    let empty = Map::<Seq<u8>, u64>::empty();
    let record = encoding(key, value);
    lemma_replay_prefix(store.log, record, 0, empty);
    lemma_appended_record(store.log, key, value);
    let longer = store.log + record;
    let end = longer.len();
    let rebuilt = replay(store.log, 0, empty).insert(key, store.log.len() as u64);
    assert(decode_at(longer, end) is EndOfStream);
    assert(replay(longer, end, rebuilt) == rebuilt);
    assert(whole_from(longer, end));
    assert(replay(longer, store.log.len(), replay(store.log, 0, empty)) == replay(
        longer,
        end,
        rebuilt,
    ));
    assert(whole_from(longer, store.log.len()) == whole_from(longer, end));
}

/// In a consistent store a lookup fails for one reason only: the index
/// does not hold the key.
pub proof fn law_consistent_lookup(store: StoreView, key: Seq<u8>)
    requires
        store.consistent(),
    ensures
        store.lookup(key) is Err <==> !store.index.contains_key(key),
        store.lookup(key) is Err ==> store.lookup(key) == Err::<Seq<u8>, KVError>(
            KVError::IndexError,
        ),
{
    if store.index.contains_key(key) {
        assert(holds_key(store.log, store.index[key] as nat, key));
    }
}

} // verus!
