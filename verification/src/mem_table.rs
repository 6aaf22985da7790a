//! The in-memory table: the most recent operation on each key, in key order.

use crate::key_order::{
    compare_keys, key_lt, lemma_key_order_total, lemma_key_order_transitive, KeyOrder,
};
use crate::record::Record;
use crate::table_model::{
    contains_key, lemma_lookup_at, lemma_put_size, lemma_put_sorted, lemma_put_well_formed,
    lemma_rank_at, lemma_rank_finds, lemma_rank_is, lemma_rank_splits, lemma_total_size_update,
    put, rank, size_delta, sorted, total_size, visible, ENTRY_OVERHEAD,
};
use vstd::prelude::*;
use vstd::slice::slice_to_vec;

verus! {

/// MemTable entry.
pub struct MemTableEntry {
    pub key: Vec<u8>,
    pub value: Option<Vec<u8>>,
    pub timestamp: u128,
    pub deleted: bool,
}

impl View for MemTableEntry {
    type V = Record;

    /// The record that the entry holds.
    open spec fn view(&self) -> Record {
        Record {
            key: self.key@,
            value: match self.value {
                Some(v) => Some(v@),
                None => None,
            },
            timestamp: self.timestamp,
            deleted: self.deleted,
        }
    }
}

/// MemTable holds a sorted list of the last written records.
///
/// Entries are kept in a vector rather than a hash map so that they can be
/// walked in key order.
pub struct MemTable {
    entries: Vec<MemTableEntry>,
    size: usize,
}

/// The records that a vector of entries stands for.
pub open spec fn entries_view(v: Seq<MemTableEntry>) -> Seq<Record> {
    v.map_values(|e: MemTableEntry| e@)
}

impl View for MemTable {
    type V = Seq<Record>;

    /// The entries, in the order in which the table holds them.
    closed spec fn view(&self) -> Seq<Record> {
        entries_view(self.entries@)
    }
}

impl MemTable {
    /// The entries are sorted by key with no key twice, each is a tombstone
    /// exactly when it has no value, and the byte count is that of the
    /// entries.
    pub closed spec fn wf(&self) -> bool {
        &&& sorted(self@)
        &&& forall|i: int| 0 <= i < self@.len() ==> (#[trigger] self@[i]).wf()
        &&& self.size == total_size(self@)
    }

    /// What well-formedness says of the entries.
    pub proof fn lemma_wf(&self)
        requires
            self.wf(),
        ensures
            sorted(self@),
            forall|i: int| 0 <= i < self@.len() ==> (#[trigger] self@[i]).wf(),
    {
    }

    /// Creates a new empty MemTable.
    pub fn new() -> (table: MemTable)
        ensures
            table.wf(),
            table@ == Seq::<Record>::empty(),
    {
        let table = MemTable { entries: Vec::new(), size: 0 };
        assert(table@ =~= Seq::<Record>::empty());
        table
    }

    /// Performs binary search to find a record in the MemTable.
    ///
    /// `Ok` holds the index of the record with this key; `Err` the index at
    /// which a record with this key is to be inserted.
    pub fn get_index(&self, key: &[u8]) -> (r: Result<usize, usize>)
        requires
            self.wf(),
        ensures
            match r {
                Ok(i) => contains_key(self@, key@) && i == rank(self@, key@) && i < self@.len()
                    && self@[i as int].key == key@,
                Err(i) => !contains_key(self@, key@) && i == rank(self@, key@),
            },
    {
        let ghost s = self@;
        let mut lo: usize = 0;
        let mut hi: usize = self.entries.len();
        while lo < hi
            invariant
                s == self@,
                sorted(s),
                0 <= lo <= hi <= s.len(),
                s.len() == self.entries@.len(),
                forall|j: int| 0 <= j < lo ==> key_lt(#[trigger] s[j].key, key@),
                forall|j: int| hi <= j < s.len() ==> key_lt(key@, #[trigger] s[j].key),
            decreases hi - lo,
        {
            let mid = lo + (hi - lo) / 2;
            assert(s[mid as int].key == self.entries@[mid as int].key@);
            match compare_keys(self.entries[mid].key.as_slice(), key) {
                KeyOrder::Less => {
                    assert forall|j: int| 0 <= j < mid + 1 implies key_lt(
                        #[trigger] s[j].key,
                        key@,
                    ) by {
                        if j < mid {
                            assert(key_lt(s[j].key, s[mid as int].key));
                            lemma_key_order_transitive(s[j].key, s[mid as int].key, key@);
                        }
                    }
                    lo = mid + 1;
                },
                KeyOrder::Greater => {
                    assert forall|j: int| mid <= j < s.len() implies key_lt(
                        key@,
                        #[trigger] s[j].key,
                    ) by {
                        if mid < j {
                            assert(key_lt(s[mid as int].key, s[j].key));
                            lemma_key_order_transitive(key@, s[mid as int].key, s[j].key);
                        }
                    }
                    hi = mid;
                },
                KeyOrder::Equal => {
                    proof {
                        lemma_lookup_at(s, mid as int);
                        lemma_rank_at(s, mid as int);
                    }
                    return Ok(mid);
                },
            }
        }
        proof {
            assert forall|j: int| lo <= j < s.len() implies !key_lt(#[trigger] s[j].key, key@) by {
                lemma_key_order_total(s[j].key, key@);
            }
            lemma_rank_is(s, key@, lo as int);
            if contains_key(s, key@) {
                let c = choose|c: int| 0 <= c < s.len() && #[trigger] s[c].key == key@;
                lemma_key_order_total(key@, key@);
            }
        }
        Err(lo)
    }

    /// Sets a key-value pair in the MemTable: the entry for `key` becomes a
    /// live one with this value and timestamp, whatever stood there before.
    pub fn set(&mut self, key: &[u8], value: &[u8], timestamp: u128)
        requires
            old(self).wf(),
            total_size(old(self)@) + size_delta(old(self)@, Record::set(key@, value@, timestamp))
                <= usize::MAX,
        ensures
            final(self).wf(),
            sorted(final(self)@),
            final(self)@ == put(old(self)@, Record::set(key@, value@, timestamp)),
            total_size(final(self)@) == total_size(old(self)@) + size_delta(
                old(self)@,
                Record::set(key@, value@, timestamp),
            ),
    {
        let ghost s = self@;
        let ghost e = Record::set(key@, value@, timestamp);
        let entry = MemTableEntry {
            key: slice_to_vec(key),
            value: Some(slice_to_vec(value)),
            timestamp,
            deleted: false,
        };
        proof {
            lemma_put_sorted(s, e);
            lemma_put_well_formed(s, e);
            lemma_put_size(s, e);
        }
        match self.get_index(key) {
            Ok(idx) => {
                proof {
                    lemma_rank_finds(s, key@);
                    assert(s[idx as int] == self.entries@[idx as int]@);
                    lemma_total_size_update(s, idx as int, e);
                }
                let old_len = match &self.entries[idx].value {
                    Some(v) => v.len(),
                    None => 0,
                };
                // The value of the entry changes its length; the key stays.
                if value.len() < old_len {
                    self.size -= old_len - value.len();
                } else {
                    self.size += value.len() - old_len;
                }
                self.entries.set(idx, entry);
                assert(self@ =~= s.update(idx as int, e));
            },
            Err(idx) => {
                proof {
                    lemma_rank_splits(s, key@);
                    if idx < s.len() && s[idx as int].key == key@ {
                        assert(contains_key(s, key@));
                    }
                }
                // A new entry: key, value, timestamp (16 bytes), tombstone flag (1 byte).
                self.size += key.len() + value.len() + ENTRY_OVERHEAD;
                self.entries.insert(idx, entry);
                assert(self@ =~= s.insert(idx as int, e));
            },
        }
    }

    /// Deletes a key from the MemTable: the entry for `key` becomes a
    /// tombstone with this timestamp, whatever stood there before.
    pub fn delete(&mut self, key: &[u8], timestamp: u128)
        requires
            old(self).wf(),
            total_size(old(self)@) + size_delta(old(self)@, Record::tombstone(key@, timestamp))
                <= usize::MAX,
        ensures
            final(self).wf(),
            sorted(final(self)@),
            final(self)@ == put(old(self)@, Record::tombstone(key@, timestamp)),
            total_size(final(self)@) == total_size(old(self)@) + size_delta(
                old(self)@,
                Record::tombstone(key@, timestamp),
            ),
    {
        let ghost s = self@;
        let ghost e = Record::tombstone(key@, timestamp);
        let entry = MemTableEntry { key: slice_to_vec(key), value: None, timestamp, deleted: true };
        proof {
            lemma_put_sorted(s, e);
            lemma_put_well_formed(s, e);
            lemma_put_size(s, e);
        }
        match self.get_index(key) {
            Ok(idx) => {
                proof {
                    lemma_rank_finds(s, key@);
                    assert(s[idx as int] == self.entries@[idx as int]@);
                    lemma_total_size_update(s, idx as int, e);
                }
                // A live entry gives up the bytes of its value.
                match &self.entries[idx].value {
                    Some(v) => {
                        self.size -= v.len();
                    },
                    None => {},
                }
                self.entries.set(idx, entry);
                assert(self@ =~= s.update(idx as int, e));
            },
            Err(idx) => {
                proof {
                    lemma_rank_splits(s, key@);
                    if idx < s.len() && s[idx as int].key == key@ {
                        assert(contains_key(s, key@));
                    }
                }
                // A new tombstone: key, timestamp (16 bytes), tombstone flag (1 byte).
                self.size += key.len() + ENTRY_OVERHEAD;
                self.entries.insert(idx, entry);
                assert(self@ =~= s.insert(idx as int, e));
            },
        }
    }

    /// Gets the live entry for a key.
    ///
    /// `None` if the table has no entry for the key, or a tombstone.
    pub fn get(&self, key: &[u8]) -> (r: Option<&MemTableEntry>)
        requires
            self.wf(),
        ensures
            match r {
                Some(e) => visible(self@, key@) == Some(e@),
                None => visible(self@, key@) is None,
            },
            r is Some ==> r.unwrap()@.value is Some,
    {
        match self.get_index(key) {
            Ok(idx) => {
                proof {
                    lemma_rank_finds(self@, key@);
                    assert(self@[idx as int] == self.entries@[idx as int]@);
                    assert(self@[idx as int].wf());
                }
                if self.entries[idx].deleted {
                    None
                } else {
                    Some(&self.entries[idx])
                }
            },
            Err(_) => None,
        }
    }

    /// Gets the number of records in the MemTable, tombstones included.
    pub fn len(&self) -> (n: usize)
        ensures
            n == self@.len(),
    {
        self.entries.len()
    }

    /// Gets all of the records of the MemTable, tombstones included, in key
    /// order.
    pub fn entries(&self) -> (v: &Vec<MemTableEntry>)
        ensures
            entries_view(v@) == self@,
    {
        &self.entries
    }

    /// Gets the total size of the records in the MemTable.
    pub fn size(&self) -> (n: usize)
        requires
            self.wf(),
        ensures
            n == total_size(self@),
    {
        self.size
    }
}

} // verus!
