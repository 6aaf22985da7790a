//! The write-ahead log: an append-only segment of encoded records, and the
//! recovery of a table from the segments found at startup.

use crate::key_order::key_lt;
use crate::mem_table::MemTable;
use crate::record::{
    all_encodable, encode_log, encode_record, lemma_encode_len, lemma_parse_log_encodable,
    lemma_parse_log_round_trip, lemma_parse_log_truncated, parse_log, Record,
};
use crate::segment_name::{segment_extension, wal_extension};
use crate::table_model::{lemma_replay_repeated, replay, total_size};
use crate::utils::{
    extension_is, files_view, files_with_ext, lemma_sorted_push_largest, sort_by_name,
    sorted_by_name, FileView, SegmentFile,
};
use crate::wal_iterator::WALIterator;
use vstd::bytes::*;
use vstd::prelude::*;

verus! {

/// The records of the given files, file after file in the order given, and
/// within a file in file order up to its end or to its first incomplete
/// frame.
pub open spec fn segment_records(files: Seq<FileView>) -> Seq<Record>
    decreases files.len(),
{
    if files.len() == 0 {
        Seq::empty()
    } else {
        segment_records(files.drop_last()) + parse_log(files.last().data)
    }
}

/// The segments among the files of a directory, in the order in which they
/// are replayed: the files with the segment extension, sorted by name.
pub open spec fn segments_in_order(dir: Seq<FileView>) -> Seq<FileView> {
    sorted_by_name(dir.filter(|f: FileView| extension_is(f.name, segment_extension())))
}

/// The records that recovery replays for a directory.
pub open spec fn recovered_records(dir: Seq<FileView>) -> Seq<Record> {
    segment_records(segments_in_order(dir))
}

/// Write Ahead Log (WAL).
///
/// The writing end of a log segment: records are appended to a buffer in
/// their on-disk layout, and a flush hands the buffered bytes over to be
/// written behind what the segment file already holds.
pub struct WAL {
    buffer: Vec<u8>,
}

impl View for WAL {
    type V = Seq<u8>;

    /// The bytes appended and not yet flushed.
    closed spec fn view(&self) -> Seq<u8> {
        self.buffer@
    }
}

impl WAL {
    /// Creates a WAL with nothing appended.
    pub fn new() -> (wal: WAL)
        ensures
            wal@ == Seq::<u8>::empty(),
    {
        WAL { buffer: Vec::new() }
    }

    /// Appends the record of a set operation.
    pub fn set(&mut self, key: &[u8], value: &[u8], timestamp: u128)
        ensures
            final(self)@ == old(self)@ + encode_record(Record::set(key@, value@, timestamp)),
            final(self)@.len() <= usize::MAX,
    {
        let key_len = u64_to_le_bytes(key.len() as u64);
        let value_len = u64_to_le_bytes(value.len() as u64);
        let stamp = u128_to_le_bytes(timestamp);
        self.buffer.extend_from_slice(key_len.as_slice());
        self.buffer.push(0);
        self.buffer.extend_from_slice(value_len.as_slice());
        self.buffer.extend_from_slice(key);
        self.buffer.extend_from_slice(value);
        self.buffer.extend_from_slice(stamp.as_slice());
        proof {
            lemma_encode_len(Record::set(key@, value@, timestamp));
            assert(self.buffer@.len() == self.buffer.len());
            assert(self@ =~= old(self)@ + encode_record(Record::set(key@, value@, timestamp)));
        }
    }

    /// Appends the record of a delete operation, a tombstone.
    pub fn delete(&mut self, key: &[u8], timestamp: u128)
        ensures
            final(self)@ == old(self)@ + encode_record(Record::tombstone(key@, timestamp)),
            final(self)@.len() <= usize::MAX,
    {
        let key_len = u64_to_le_bytes(key.len() as u64);
        let stamp = u128_to_le_bytes(timestamp);
        self.buffer.extend_from_slice(key_len.as_slice());
        self.buffer.push(1);
        self.buffer.extend_from_slice(key);
        self.buffer.extend_from_slice(stamp.as_slice());
        proof {
            lemma_encode_len(Record::tombstone(key@, timestamp));
            assert(self.buffer@.len() == self.buffer.len());
            assert(self@ =~= old(self)@ + encode_record(Record::tombstone(key@, timestamp)));
        }
    }

    /// Takes the buffered bytes out, to be written to the segment file; the
    /// buffer is empty afterwards.
    pub fn flush(&mut self) -> (bytes: Vec<u8>)
        ensures
            bytes@ == old(self)@,
            final(self)@ == Seq::<u8>::empty(),
    {
        let mut bytes: Vec<u8> = Vec::new();
        bytes.append(&mut self.buffer);
        bytes
    }

    /// Converts a WAL into a `WALIterator` over the records that it holds.
    pub fn into_iter(self) -> (it: WALIterator)
        ensures
            it.wf(),
            it@ == parse_log(self@),
    {
        WALIterator::new(self.buffer)
    }

    /// Loads the segments within a directory, returning a new WAL and the
    /// recovered MemTable.
    ///
    /// The segments are replayed in the order of their names, each up to its
    /// end or to its first incomplete frame. Every record replayed is applied
    /// to the table and appended to the new WAL, which so holds, unflushed,
    /// the contents of the one segment that takes the place of the old ones.
    pub fn load_from_dir(dir: Vec<SegmentFile>) -> (loaded: (WAL, MemTable))
        ensures
            loaded.1.wf(),
            loaded.1@ == replay(recovered_records(files_view(dir@))),
            loaded.0@ == encode_log(recovered_records(files_view(dir@))),
            replay(parse_log(loaded.0@)) == loaded.1@,
    {
        proof {
            lemma_segment_records_encodable(segments_in_order(files_view(dir@)));
            lemma_parse_log_round_trip(recovered_records(files_view(dir@)));
        }
        let ext = wal_extension();
        let wal_files = sort_by_name(files_with_ext(dir, ext.as_slice()));
        let ghost listed = wal_files@;
        let ghost segments = files_view(listed);
        assert(segments == segments_in_order(files_view(dir@)));
        let mut new_mem_table = MemTable::new();
        let mut new_wal = WAL::new();
        assert(segments.take(0) == Seq::<FileView>::empty());
        for file in it: wal_files
            invariant
                it.seq() == listed,
                segments == files_view(listed),
                new_mem_table.wf(),
                new_mem_table@ == replay(segment_records(segments.take(it.index() as int))),
                new_wal@ == encode_log(segment_records(segments.take(it.index() as int))),
                total_size(new_mem_table@) <= new_wal@.len(),
        {
            let ghost before = segment_records(segments.take(it.index() as int));
            let ghost all = parse_log(file.data@);
            let ghost mut done = Seq::<Record>::empty();
            proof {
                let i = it.index() as int;
                assert(file == listed[i]);
                assert(segments.take(i + 1).drop_last() == segments.take(i));
                assert(segments.take(i + 1).last() == file@);
                lemma_parse_log_encodable(file.data@);
                assert(before + done == before);
            }
            let mut records = WALIterator::new(file.data);
            assert(all == done + records@);
            loop
                invariant
                    records.wf(),
                    all_encodable(all),
                    all == done + records@,
                    new_mem_table.wf(),
                    new_mem_table@ == replay(before + done),
                    new_wal@ == encode_log(before + done),
                    total_size(new_mem_table@) <= new_wal@.len(),
                ensures
                    all == done,
                    new_mem_table.wf(),
                    new_mem_table@ == replay(before + done),
                    new_wal@ == encode_log(before + done),
                    total_size(new_mem_table@) <= new_wal@.len(),
                decreases records@.len(),
            {
                match records.next() {
                    Some(entry) => {
                        let ghost e = entry@;
                        proof {
                            assert(all[done.len() as int] == e);
                            assert(e.encodable());
                            lemma_encode_len(e);
                            assert((before + done.push(e)).drop_last() == before + done);
                            assert(done.push(e) + records@ == done + (seq![e] + records@));
                        }
                        if entry.deleted {
                            new_wal.delete(entry.key.as_slice(), entry.timestamp);
                            new_mem_table.delete(entry.key.as_slice(), entry.timestamp);
                        } else {
                            let value = entry.value.unwrap();
                            new_wal.set(entry.key.as_slice(), value.as_slice(), entry.timestamp);
                            new_mem_table.set(
                                entry.key.as_slice(),
                                value.as_slice(),
                                entry.timestamp,
                            );
                        }
                        proof {
                            done = done.push(e);
                        }
                    },
                    None => {
                        assert(done + Seq::<Record>::empty() == done);
                        break;
                    },
                }
            }
        }
        assert(segments.take(segments.len() as int) == segments);
        (new_wal, new_mem_table)
    }
}

/// All records that recovery replays are well formed and fit a frame.
pub proof fn lemma_segment_records_encodable(files: Seq<FileView>)
    ensures
        all_encodable(segment_records(files)),
    decreases files.len(),
{
    if files.len() > 0 {
        lemma_segment_records_encodable(files.drop_last());
        lemma_parse_log_encodable(files.last().data);
    }
}

/// In a directory that holds one segment and nothing else, recovery replays
/// the records of that segment.
pub proof fn lemma_single_segment(file: FileView)
    requires
        extension_is(file.name, segment_extension()),
    ensures
        recovered_records(seq![file]) == parse_log(file.data),
{
    let dir = seq![file];
    let pred = |f: FileView| extension_is(f.name, segment_extension());
    assert(dir.filter(pred) == dir) by {
        reveal_with_fuel(Seq::filter, 2);
        assert(dir.drop_last() == Seq::<FileView>::empty());
    }
    assert(sorted_by_name(dir) == dir) by {
        assert(dir.skip(1) == Seq::<FileView>::empty());
        assert(sorted_by_name(dir.skip(1)) == Seq::<FileView>::empty());
    }
    assert(segment_records(dir) == parse_log(file.data)) by {
        assert(dir.drop_last() == Seq::<FileView>::empty());
        assert(segment_records(dir.drop_last()) == Seq::<Record>::empty());
    }
}

/// The segment that recovery leaves behind, holding the frames of the records
/// that were replayed, is recovered in its turn to the same records, and so
/// to the same table and to the same segment: recovering twice gives what
/// recovering once gives.
pub proof fn lemma_recovery_idempotent(dir: Seq<FileView>, name: Seq<u8>)
    requires
        extension_is(name, segment_extension()),
    ensures
        recovered_records(seq![FileView { name, data: encode_log(recovered_records(dir)) }])
            == recovered_records(dir),
{
    let ops = recovered_records(dir);
    lemma_segment_records_encodable(segments_in_order(dir));
    lemma_parse_log_round_trip(ops);
    lemma_single_segment(FileView { name, data: encode_log(ops) });
}

/// A segment that holds the frames of `rs` and then a frame cut short before
/// its end is recovered to `rs`.
pub proof fn lemma_recovery_truncated(name: Seq<u8>, rs: Seq<Record>, r: Record, cut: int)
    requires
        extension_is(name, segment_extension()),
        all_encodable(rs),
        r.encodable(),
        0 <= cut < encode_record(r).len(),
    ensures
        recovered_records(
            seq![FileView { name, data: encode_log(rs) + encode_record(r).subrange(0, cut) }],
        ) == rs,
{
    lemma_parse_log_truncated(rs, r, cut);
    lemma_single_segment(
        FileView { name, data: encode_log(rs) + encode_record(r).subrange(0, cut) },
    );
}

/// Where the segment that recovery wrote stands in the directory beside the
/// segments it was made from, under a name larger than theirs, as after a
/// crash between the flush and the removal of the old segments, recovery
/// replays the old records and then the same records once more, and arrives
/// at the same table.
pub proof fn lemma_recovery_beside_old_segments(dir: Seq<FileView>, name: Seq<u8>)
    requires
        extension_is(name, segment_extension()),
        forall|i: int| 0 <= i < dir.len() ==> key_lt(#[trigger] dir[i].name, name),
    ensures
        recovered_records(dir.push(FileView { name, data: encode_log(recovered_records(dir)) }))
            == recovered_records(dir) + recovered_records(dir),
        replay(
            recovered_records(
                dir.push(FileView { name, data: encode_log(recovered_records(dir)) }),
            ),
        ) == replay(recovered_records(dir)),
{
    let ops = recovered_records(dir);
    let successor = FileView { name, data: encode_log(ops) };
    let pred = |f: FileView| extension_is(f.name, segment_extension());
    let segments = dir.filter(pred);
    dir.lemma_filter_push(successor, pred);
    assert(dir.push(successor).filter(pred) == segments.push(successor));
    assert forall|i: int| 0 <= i < segments.len() implies key_lt(
        #[trigger] segments[i].name,
        name,
    ) by {
        assert(segments.contains(segments[i]));
        dir.lemma_filter_contains_rev(pred, segments[i]);
        let j = choose|j: int| 0 <= j < dir.len() && dir[j] == segments[i];
        assert(key_lt(dir[j].name, name));
    }
    lemma_sorted_push_largest(segments, successor);
    let ordered = sorted_by_name(segments);
    assert(ordered.push(successor).drop_last() == ordered);
    lemma_segment_records_encodable(ordered);
    lemma_parse_log_round_trip(ops);
    lemma_replay_repeated(ops);
}

} // verus!
