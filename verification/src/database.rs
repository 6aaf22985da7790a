//! The coordinator: the table together with the rule that keeps it in step
//! with the log.
//!
//! The coordinator does not write the log itself. Its caller appends the
//! record of a mutation to the live segment, flushes, and tells the
//! coordinator how that went; the table is touched only for a record that
//! was flushed, so that it never holds what the log does not.

use crate::mem_table::MemTable;
use crate::record::{encode_log, Record};
use crate::table_model::{
    last_op, lemma_replay_lookup, put, replay, size_delta, total_size, visible,
};
use crate::utils::{files_view, SegmentFile};
use crate::wal::{recovered_records, WAL};
use vstd::prelude::*;
use vstd::slice::slice_to_vec;

verus! {

/// A live entry as handed out to callers: a copy of key, value and timestamp.
#[derive(Debug)]
pub struct DatabaseEntry {
    key: Vec<u8>,
    value: Vec<u8>,
    timestamp: u128,
}

impl View for DatabaseEntry {
    type V = Record;

    /// The set record that the entry stands for.
    closed spec fn view(&self) -> Record {
        Record::set(self.key@, self.value@, self.timestamp)
    }
}

impl DatabaseEntry {
    /// An entry always stands for a set record: it has a value and is no
    /// tombstone.
    pub proof fn lemma_is_live(&self)
        ensures
            self@.value is Some,
            !self@.deleted,
    {
    }

    /// The key of the entry.
    pub fn key(&self) -> (key: &[u8])
        ensures
            key@ == self@.key,
    {
        self.key.as_slice()
    }

    /// The value that was set.
    pub fn value(&self) -> (value: &[u8])
        ensures
            Some(value@) == self@.value,
    {
        self.value.as_slice()
    }

    /// The timestamp of the set that wrote the entry.
    pub fn timestamp(&self) -> (timestamp: u128)
        ensures
            timestamp == self@.timestamp,
    {
        self.timestamp
    }
}

/// The database core: the live table, which at every moment is what the
/// records logged so far make when replayed.
pub struct Database {
    mem_table: MemTable,
    logged: Ghost<Seq<Record>>,
}

impl View for Database {
    type V = Seq<Record>;

    /// The entries of the live table.
    closed spec fn view(&self) -> Seq<Record> {
        self.mem_table@
    }
}

impl Database {
    /// The records that stand in the log, oldest first: those recovered at
    /// startup, and behind them those of the mutations since.
    pub closed spec fn log(&self) -> Seq<Record> {
        self.logged@
    }

    /// The live table is well formed, and it is the replay of the log.
    pub closed spec fn wf(&self) -> bool {
        &&& self.mem_table.wf()
        &&& self.mem_table@ == replay(self.logged@)
    }

    /// The table holds nothing that the log does not: it is the replay of
    /// the log.
    pub proof fn lemma_table_is_replay_of_log(&self)
        requires
            self.wf(),
        ensures
            self@ == replay(self.log()),
    {
    }

    /// Opens a database on the files of its directory: recovers the table
    /// from the segments among them, and hands back with it the WAL that
    /// holds, unflushed, what the segment that replaces them is to contain.
    pub fn new(dir: Vec<SegmentFile>) -> (opened: (Database, WAL))
        ensures
            opened.0.wf(),
            opened.0.log() == recovered_records(files_view(dir@)),
            opened.0@ == replay(recovered_records(files_view(dir@))),
            opened.1@ == encode_log(recovered_records(files_view(dir@))),
    {
        let ghost recovered = recovered_records(files_view(dir@));
        let (wal, mem_table) = WAL::load_from_dir(dir);
        (Database { mem_table, logged: Ghost(recovered) }, wal)
    }

    /// The live table.
    pub fn mem_table(&self) -> (table: &MemTable)
        requires
            self.wf(),
        ensures
            table.wf(),
            table@ == self@,
    {
        &self.mem_table
    }

    /// Gets a copy of the live entry for a key; `None` if the key has no
    /// entry or a tombstone. What is found is the last logged operation on
    /// the key, if that is a set.
    pub fn get(&self, key: &[u8]) -> (r: Option<DatabaseEntry>)
        requires
            self.wf(),
        ensures
            match r {
                Some(entry) => visible(self@, key@) == Some(entry@) && last_op(self.log(), key@)
                    == Some(entry@),
                None => visible(self@, key@) is None && (last_op(self.log(), key@) is None
                    || last_op(self.log(), key@).unwrap().deleted),
            },
    {
        proof {
            lemma_replay_lookup(self.log(), key@);
        }
        match self.mem_table.get(key) {
            Some(mem_entry) => Some(
                DatabaseEntry {
                    key: slice_to_vec(mem_entry.key.as_slice()),
                    value: slice_to_vec(mem_entry.value.as_ref().unwrap().as_slice()),
                    timestamp: mem_entry.timestamp,
                },
            ),
            None => None,
        }
    }

    /// Completes a set whose record the caller has sent to the log.
    ///
    /// `logged` says whether the record was appended and flushed. If it was,
    /// the table is updated and the result is `Ok(1)`; if not, the table is
    /// left as it is and the result is `Err(0)`.
    pub fn set(&mut self, key: &[u8], value: &[u8], timestamp: u128, logged: bool) -> (r: Result<
        usize,
        usize,
    >)
        requires
            old(self).wf(),
            logged ==> total_size(old(self)@) + size_delta(
                old(self)@,
                Record::set(key@, value@, timestamp),
            ) <= usize::MAX,
        ensures
            final(self).wf(),
            logged ==> r == Ok::<usize, usize>(1) && final(self)@ == put(
                old(self)@,
                Record::set(key@, value@, timestamp),
            ),
            logged ==> final(self).log() == old(self).log().push(
                Record::set(key@, value@, timestamp),
            ),
            !logged ==> r == Err::<usize, usize>(0) && final(self)@ == old(self)@,
            !logged ==> final(self).log() == old(self).log(),
    {
        if !logged {
            return Err(0);
        }
        self.mem_table.set(key, value, timestamp);
        let ghost record = Record::set(key@, value@, timestamp);
        proof {
            assert(old(self).log().push(record).drop_last() == old(self).log());
        }
        self.logged = Ghost(self.logged@.push(record));
        Ok(1)
    }

    /// Completes a delete whose record the caller has sent to the log.
    ///
    /// `logged` says whether the record was appended and flushed. If it was,
    /// the table is updated and the result is `Ok(1)`; if not, the table is
    /// left as it is and the result is `Err(0)`.
    pub fn delete(&mut self, key: &[u8], timestamp: u128, logged: bool) -> (r: Result<usize, usize>)
        requires
            old(self).wf(),
            logged ==> total_size(old(self)@) + size_delta(
                old(self)@,
                Record::tombstone(key@, timestamp),
            ) <= usize::MAX,
        ensures
            final(self).wf(),
            logged ==> r == Ok::<usize, usize>(1) && final(self)@ == put(
                old(self)@,
                Record::tombstone(key@, timestamp),
            ),
            logged ==> final(self).log() == old(self).log().push(
                Record::tombstone(key@, timestamp),
            ),
            !logged ==> r == Err::<usize, usize>(0) && final(self)@ == old(self)@,
            !logged ==> final(self).log() == old(self).log(),
    {
        if !logged {
            return Err(0);
        }
        self.mem_table.delete(key, timestamp);
        let ghost record = Record::tombstone(key@, timestamp);
        proof {
            assert(old(self).log().push(record).drop_last() == old(self).log());
        }
        self.logged = Ghost(self.logged@.push(record));
        Ok(1)
    }
}

} // verus!
