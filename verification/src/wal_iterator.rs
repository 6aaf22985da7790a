//! Reading the records of a log segment.

use crate::record::{lemma_parse_is_encodable, parse_log, parse_record, Record};
use vstd::bytes::*;
use vstd::prelude::*;
use vstd::slice::*;

verus! {

/// A record as read from a log segment.
pub struct WALEntry {
    pub key: Vec<u8>,
    pub value: Option<Vec<u8>>,
    pub timestamp: u128,
    pub deleted: bool,
}

impl View for WALEntry {
    type V = Record;

    /// The record that was read.
    open spec fn view(&self) -> Record {
        Record {
            key: self.key@,
            value: match self.value {
                Some(v) => Some(v@),
                None => None,
            },
            timestamp: self.timestamp,
            deleted: self.deleted,
        }
    }
}

/// What stands at a position of a segment.
pub enum Decoded {
    /// A complete record, and the position just behind its frame.
    Entry(WALEntry, usize),
    /// Nothing: the segment ends here, on a record boundary.
    End,
    /// Bytes that do not make a complete frame: the segment was cut short
    /// inside a record.
    Corrupt,
}

/// Decodes the record whose frame starts at `pos`.
pub fn decode_record(bytes: &[u8], pos: usize) -> (r: Decoded)
    ensures
        match r {
            Decoded::Entry(e, next) => pos < next <= bytes@.len() && parse_record(
                bytes@.skip(pos as int),
            ) == Some((e@, next - pos)),
            Decoded::End => pos >= bytes@.len(),
            Decoded::Corrupt => pos < bytes@.len() && parse_record(bytes@.skip(pos as int))
                is None,
        },
{
    let len = bytes.len();
    if pos >= len {
        return Decoded::End;
    }
    let ghost tail = bytes@.skip(pos as int);
    let avail = len - pos;
    if avail < 9 {
        return Decoded::Corrupt;
    }
    let key_len = u64_from_le_bytes(slice_subrange(bytes, pos, pos + 8));
    assert(bytes@.subrange(pos as int, pos + 8) == tail.subrange(0, 8));
    let deleted = bytes[pos + 8] != 0;
    if deleted {
        let body = avail - 9;
        if body < 16 || key_len > (body - 16) as u64 {
            return Decoded::Corrupt;
        }
        let key_start = pos + 9;
        let key_end = key_start + key_len as usize;
        let end = key_end + 16;
        let key = slice_to_vec(slice_subrange(bytes, key_start, key_end));
        let timestamp = u128_from_le_bytes(slice_subrange(bytes, key_end, end));
        assert(bytes@.subrange(key_start as int, key_end as int) == tail.subrange(
            9,
            9 + key_len,
        ));
        assert(bytes@.subrange(key_end as int, end as int) == tail.subrange(
            9 + key_len,
            9 + key_len + 16,
        ));
        Decoded::Entry(WALEntry { key, value: None, timestamp, deleted: true }, end)
    } else {
        if avail < 17 {
            return Decoded::Corrupt;
        }
        let value_len = u64_from_le_bytes(slice_subrange(bytes, pos + 9, pos + 17));
        assert(bytes@.subrange(pos + 9, pos + 17) == tail.subrange(9, 17));
        let body = avail - 17;
        if body < 16 || key_len > (body - 16) as u64 || value_len > (body - 16) as u64 - key_len {
            return Decoded::Corrupt;
        }
        let key_start = pos + 17;
        let key_end = key_start + key_len as usize;
        let value_end = key_end + value_len as usize;
        let end = value_end + 16;
        let key = slice_to_vec(slice_subrange(bytes, key_start, key_end));
        let value = slice_to_vec(slice_subrange(bytes, key_end, value_end));
        let timestamp = u128_from_le_bytes(slice_subrange(bytes, value_end, end));
        assert(bytes@.subrange(key_start as int, key_end as int) == tail.subrange(
            17,
            17 + key_len,
        ));
        assert(bytes@.subrange(key_end as int, value_end as int) == tail.subrange(
            17 + key_len,
            17 + key_len + value_len,
        ));
        assert(bytes@.subrange(value_end as int, end as int) == tail.subrange(
            17 + key_len + value_len,
            17 + key_len + value_len + 16,
        ));
        Decoded::Entry(WALEntry { key, value: Some(value), timestamp, deleted: false }, end)
    }
}

/// A cursor over the records of one segment, in file order.
pub struct WALIterator {
    data: Vec<u8>,
    pos: usize,
}

impl View for WALIterator {
    type V = Seq<Record>;

    /// The records still to come.
    closed spec fn view(&self) -> Seq<Record> {
        parse_log(self.data@.skip(self.pos as int))
    }
}

impl WALIterator {
    /// The cursor stands inside its segment.
    pub closed spec fn wf(&self) -> bool {
        self.pos <= self.data@.len()
    }

    /// A cursor at the start of a segment with the given contents.
    pub fn new(data: Vec<u8>) -> (it: WALIterator)
        ensures
            it.wf(),
            it@ == parse_log(data@),
    {
        assert(data@.skip(0) == data@);
        WALIterator { data, pos: 0 }
    }

    /// The next record of the segment. `None` at the end of the segment and
    /// at the first place where no complete frame starts; the cursor then
    /// stays where it is.
    pub fn next(&mut self) -> (r: Option<WALEntry>)
        requires
            old(self).wf(),
        ensures
            final(self).wf(),
            match r {
                Some(e) => old(self)@ == seq![e@] + final(self)@,
                None => old(self)@ == Seq::<Record>::empty() && final(self)@ == old(self)@,
            },
    {
        match decode_record(self.data.as_slice(), self.pos) {
            Decoded::Entry(e, next) => {
                proof {
                    let tail = self.data@.skip(self.pos as int);
                    lemma_parse_is_encodable(tail);
                    assert(tail.skip(next - self.pos) == self.data@.skip(next as int));
                }
                self.pos = next;
                Some(e)
            },
            Decoded::End => None,
            Decoded::Corrupt => None,
        }
    }
}

} // verus!
