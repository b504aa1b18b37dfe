//! The index: for each key, the offset in the log of its latest record.
//!
//! The index lives in memory only. It holds each key once, so a later
//! offset for a key takes the place of the earlier one.

use vstd::prelude::*;

verus! {

/// One key and the offset of its record.
#[derive(Debug)]
struct Entry {
    key: Vec<u8>,
    offset: u64,
}

/// The mapping from keys to log offsets.
#[derive(Debug)]
pub struct Index {
    entries: Vec<Entry>,
}

/// Whether no key stands at two places of `entries`.
spec fn distinct_keys(entries: Seq<Entry>) -> bool {
    forall|i: int, j: int|
        0 <= i < j < entries.len() ==> (#[trigger] entries[i]).key@ != (#[trigger] entries[j]).key@
}

/// Whether `key` stands at place `i` of `entries`.
spec fn key_at(entries: Seq<Entry>, key: Seq<u8>, i: int) -> bool {
    0 <= i < entries.len() && entries[i].key@ == key
}

/// The mapping that `entries` spell out.
spec fn entries_map(entries: Seq<Entry>) -> Map<Seq<u8>, u64> {
    Map::new(
        |key: Seq<u8>| exists|i: int| key_at(entries, key, i),
        |key: Seq<u8>| entries[choose|i: int| key_at(entries, key, i)].offset,
    )
}

/// With distinct keys, the entry at place `i` is what the mapping holds
/// for its key.
proof fn lemma_entry_in_map(entries: Seq<Entry>, i: int)
    requires
        distinct_keys(entries),
        0 <= i < entries.len(),
    ensures
        entries_map(entries).contains_key(entries[i].key@),
        entries_map(entries)[entries[i].key@] == entries[i].offset,
{
    let key = entries[i].key@;
    assert(key_at(entries, key, i));
    let j = choose|j: int| key_at(entries, key, j);
    assert(key_at(entries, key, j));
    if i < j {
        assert(entries[i].key@ != entries[j].key@);
    } else if j < i {
        assert(entries[j].key@ != entries[i].key@);
    }
}

/// Whether two byte strings are the same.
fn same_bytes(a: &[u8], b: &[u8]) -> (same: bool)
    ensures
        same == (a@ == b@),
{
    if a.len() != b.len() {
        return false;
    }
    let mut i: usize = 0;
    while i < a.len()
        invariant
            a@.len() == b@.len(),
            i <= a@.len(),
            forall|j: int| 0 <= j < i ==> a@[j] == b@[j],
        decreases a@.len() - i,
    {
        if a[i] != b[i] {
            return false;
        }
        i += 1;
    }
    assert(a@ =~= b@);
    true
}

impl View for Index {
    type V = Map<Seq<u8>, u64>;

    closed spec fn view(&self) -> Map<Seq<u8>, u64> {
        entries_map(self.entries@)
    }
}

impl Index {
    #[verifier::type_invariant]
    spec fn well_formed(self) -> bool {
        distinct_keys(self.entries@)
    }

    /// An index that holds no key.
    pub fn new() -> (index: Self)
        ensures
            index@ == Map::<Seq<u8>, u64>::empty(),
    {
        let index = Index { entries: Vec::new() };
        assert(index@ =~= Map::<Seq<u8>, u64>::empty());
        index
    }

    /// The place of `key` among the entries, if it has one.
    fn find(&self, key: &[u8]) -> (place: Option<usize>)
        ensures
            match place {
                Some(i) => key_at(self.entries@, key@, i as int),
                None => forall|i: int| !key_at(self.entries@, key@, i),
            },
    {
        let mut i: usize = 0;
        while i < self.entries.len()
            invariant
                i <= self.entries@.len(),
                forall|j: int| 0 <= j < i ==> !key_at(self.entries@, key@, j),
            decreases self.entries@.len() - i,
        {
            if same_bytes(self.entries[i].key.as_slice(), key) {
                return Some(i);
            }
            i += 1;
        }
        None
    }

    /// The offset that the index holds for `key`.
    pub fn get(&self, key: &[u8]) -> (offset: Option<u64>)
        ensures
            offset == (if self@.contains_key(key@) {
                Some(self@[key@])
            } else {
                None
            }),
    {
        proof {
            use_type_invariant(self);
        }
        match self.find(key) {
            Some(i) => {
                proof {
                    lemma_entry_in_map(self.entries@, i as int);
                }
                Some(self.entries[i].offset)
            },
            None => None,
        }
    }

    /// Whether the index holds no key.
    pub fn is_empty(&self) -> (empty: bool)
        ensures
            empty == (self@ == Map::<Seq<u8>, u64>::empty()),
    {
        proof {
            use_type_invariant(self);
            if self.entries@.len() > 0 {
                lemma_entry_in_map(self.entries@, 0);
            } else {
                assert(self@ =~= Map::<Seq<u8>, u64>::empty());
            }
        }
        self.entries.len() == 0
    }

    /// Sets the offset of `key`, whether the index held the key or not.
    pub fn set(&mut self, key: Vec<u8>, offset: u64)
        ensures
            final(self)@ == old(self)@.insert(key@, offset),
    {
        proof {
            use_type_invariant(&*self);
        }
        let ghost before = self.entries@;
        let ghost k = key@;
        let place = self.find(key.as_slice());
        // The entries leave `self` while they change, and come back whole.
        let mut entries: Vec<Entry> = Vec::new();
        std::mem::swap(&mut entries, &mut self.entries);
        match place {
            Some(i) => {
                entries.set(i, Entry { key, offset });
                proof {
                    let after = entries@;
                    assert forall|a: int, b: int| 0 <= a < b < after.len() implies (
                    #[trigger] after[a]).key@ != (#[trigger] after[b]).key@ by {
                        assert(before[a].key@ != before[b].key@);
                    }
                    lemma_maps_after_set(before, after, i as int, k, offset);
                }
            },
            None => {
                entries.push(Entry { key, offset });
                proof {
                    let after = entries@;
                    assert forall|a: int, b: int| 0 <= a < b < after.len() implies (
                    #[trigger] after[a]).key@ != (#[trigger] after[b]).key@ by {
                        if b < before.len() {
                            assert(before[a].key@ != before[b].key@);
                        } else {
                            assert(!key_at(before, k, a));
                        }
                    }
                    lemma_maps_after_push(before, after, k, offset);
                }
            },
        }
        self.entries = entries;
    }
}

/// Putting a new offset at the place of a key is an insertion into the mapping.
proof fn lemma_maps_after_set(
    before: Seq<Entry>,
    after: Seq<Entry>,
    i: int,
    key: Seq<u8>,
    offset: u64,
)
    requires
        distinct_keys(before),
        distinct_keys(after),
        key_at(before, key, i),
        after.len() == before.len(),
        after[i].key@ == key,
        after[i].offset == offset,
        forall|j: int| 0 <= j < before.len() && j != i ==> after[j] == before[j],
    ensures
        entries_map(after) =~= entries_map(before).insert(key, offset),
{
    let old_map = entries_map(before);
    let new_map = entries_map(after);
    assert forall|k: Seq<u8>| new_map.contains_key(k) <==> old_map.insert(
        key,
        offset,
    ).contains_key(k) by {
        if new_map.contains_key(k) {
            let j = choose|j: int| key_at(after, k, j);
            assert(key_at(after, k, j));
            if j != i {
                assert(key_at(before, k, j));
            }
        }
        if old_map.contains_key(k) {
            let j = choose|j: int| key_at(before, k, j);
            assert(key_at(before, k, j));
            if j != i {
                assert(key_at(after, k, j));
            } else {
                assert(key_at(after, k, i));
            }
        }
        if k == key {
            assert(key_at(after, k, i));
        }
    }
    assert forall|k: Seq<u8>| new_map.contains_key(k) implies new_map[k] == old_map.insert(
        key,
        offset,
    )[k] by {
        let j = choose|j: int| key_at(after, k, j);
        assert(key_at(after, k, j));
        lemma_entry_in_map(after, j);
        if j == i {
        } else {
            assert(k != key) by {
                if i < j {
                    assert(after[i].key@ != after[j].key@);
                } else {
                    assert(after[j].key@ != after[i].key@);
                }
            }
            lemma_entry_in_map(before, j);
        }
    }
}

/// Adding an entry for a key that had none is an insertion into the mapping.
proof fn lemma_maps_after_push(before: Seq<Entry>, after: Seq<Entry>, key: Seq<u8>, offset: u64)
    requires
        distinct_keys(before),
        distinct_keys(after),
        forall|i: int| !key_at(before, key, i),
        after.len() == before.len() + 1,
        after[before.len() as int].key@ == key,
        after[before.len() as int].offset == offset,
        forall|j: int| 0 <= j < before.len() ==> after[j] == before[j],
    ensures
        entries_map(after) =~= entries_map(before).insert(key, offset),
{
    let old_map = entries_map(before);
    let new_map = entries_map(after);
    let last = before.len() as int;
    assert forall|k: Seq<u8>| new_map.contains_key(k) <==> old_map.insert(
        key,
        offset,
    ).contains_key(k) by {
        if new_map.contains_key(k) {
            let j = choose|j: int| key_at(after, k, j);
            assert(key_at(after, k, j));
            if j != last {
                assert(key_at(before, k, j));
            }
        }
        if old_map.contains_key(k) {
            let j = choose|j: int| key_at(before, k, j);
            assert(key_at(before, k, j));
            assert(key_at(after, k, j));
        }
        if k == key {
            assert(key_at(after, k, last));
        }
    }
    assert forall|k: Seq<u8>| new_map.contains_key(k) implies new_map[k] == old_map.insert(
        key,
        offset,
    )[k] by {
        let j = choose|j: int| key_at(after, k, j);
        assert(key_at(after, k, j));
        lemma_entry_in_map(after, j);
        if j != last {
            assert(key_at(before, k, j));
            lemma_entry_in_map(before, j);
        }
    }
}

} // verus!
