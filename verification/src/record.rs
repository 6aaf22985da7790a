//! The logical record and its layout in a log segment.
//!
//! A record is one operation on one key. On disk it is a length-prefixed
//! frame, every integer little-endian:
//!
//! ```text
//! set:     u64 key_len | u8 0 | u64 value_len | key | value | u128 timestamp
//! delete:  u64 key_len | u8 1 | key | u128 timestamp
//! ```
//!
//! So the key length stands at bytes 0 to 7 and the flag at byte 8; the key
//! of a delete starts at byte 9; a set has its value length at bytes 9 to 16
//! and its key from byte 17 on; the timestamp takes the last 16 bytes.

use vstd::bytes::*;
use vstd::prelude::*;

verus! {

/// One operation on one key: a set when `value` is present, a delete
/// (tombstone) when it is absent.
pub struct Record {
    pub key: Seq<u8>,
    pub value: Option<Seq<u8>>,
    pub timestamp: u128,
    pub deleted: bool,
}

impl Record {
    /// The record of `set(key, value)` at `timestamp`.
    pub open spec fn set(key: Seq<u8>, value: Seq<u8>, timestamp: u128) -> Record {
        Record { key, value: Some(value), timestamp, deleted: false }
    }

    /// The record of `delete(key)` at `timestamp`.
    pub open spec fn tombstone(key: Seq<u8>, timestamp: u128) -> Record {
        Record { key, value: None, timestamp, deleted: true }
    }

    /// A record is a tombstone exactly when it carries no value.
    pub open spec fn wf(self) -> bool {
        self.deleted <==> self.value is None
    }

    /// Length of the value, 0 for a tombstone.
    pub open spec fn value_len(self) -> nat {
        match self.value {
            Some(v) => v.len(),
            None => 0,
        }
    }

    /// Both lengths fit the 64-bit prefixes of the frame.
    pub open spec fn encodable(self) -> bool {
        &&& self.wf()
        &&& self.key.len() <= u64::MAX
        &&& self.value_len() <= u64::MAX
    }
}

/// The frame of one record.
pub open spec fn encode_record(r: Record) -> Seq<u8> {
    match r.value {
        Some(v) => spec_u64_to_le_bytes(r.key.len() as u64) + seq![0u8] + spec_u64_to_le_bytes(
            v.len() as u64,
        ) + r.key + v + spec_u128_to_le_bytes(r.timestamp),
        None => spec_u64_to_le_bytes(r.key.len() as u64) + seq![1u8] + r.key
            + spec_u128_to_le_bytes(r.timestamp),
    }
}

/// The frames of a sequence of records, one after the other.
pub open spec fn encode_log(rs: Seq<Record>) -> Seq<u8>
    decreases rs.len(),
{
    if rs.len() == 0 {
        Seq::empty()
    } else {
        encode_log(rs.drop_last()) + encode_record(rs.last())
    }
}

/// Every record of the sequence fits a frame.
pub open spec fn all_encodable(rs: Seq<Record>) -> bool {
    forall|i: int| 0 <= i < rs.len() ==> (#[trigger] rs[i]).encodable()
}

/// The record whose frame starts `bytes`, with the length of that frame;
/// `None` where `bytes` does not start with a complete frame. A flag other
/// than 0 marks a delete.
pub open spec fn parse_record(bytes: Seq<u8>) -> Option<(Record, int)> {
    if bytes.len() < 9 {
        None
    } else {
        let key_len = spec_u64_from_le_bytes(bytes.subrange(0, 8)) as int;
        if bytes[8] != 0 {
            let end = 9 + key_len + 16;
            if bytes.len() < end {
                None
            } else {
                Some(
                    (
                        Record {
                            key: bytes.subrange(9, 9 + key_len),
                            value: None,
                            timestamp: spec_u128_from_le_bytes(bytes.subrange(9 + key_len, end)),
                            deleted: true,
                        },
                        end,
                    ),
                )
            }
        } else if bytes.len() < 17 {
            None
        } else {
            let value_len = spec_u64_from_le_bytes(bytes.subrange(9, 17)) as int;
            let end = 17 + key_len + value_len + 16;
            if bytes.len() < end {
                None
            } else {
                Some(
                    (
                        Record {
                            key: bytes.subrange(17, 17 + key_len),
                            value: Some(bytes.subrange(17 + key_len, 17 + key_len + value_len)),
                            timestamp: spec_u128_from_le_bytes(
                                bytes.subrange(17 + key_len + value_len, end),
                            ),
                            deleted: false,
                        },
                        end,
                    ),
                )
            }
        }
    }
}

/// The records of a segment: the frames read from the start, in file order,
/// up to the end or to the first place where no complete frame starts.
pub open spec fn parse_log(bytes: Seq<u8>) -> Seq<Record>
    decreases bytes.len(),
{
    match parse_record(bytes) {
        Some((r, n)) => seq![r] + parse_log(bytes.skip(n)),
        None => Seq::empty(),
    }
}

/// A frame is at least a length prefix, a flag and a timestamp long, and its
/// length is that of its fields.
pub proof fn lemma_encode_len(r: Record)
    ensures
        encode_record(r).len() == (if r.value is Some {
            17 + r.key.len() + r.value_len() + 16
        } else {
            9 + r.key.len() + 16
        }),
{
    lemma_auto_spec_u64_to_from_le_bytes();
    lemma_auto_spec_u128_to_from_le_bytes();
}

/// What parses as a record is well formed and fits a frame, and its frame is
/// as long as what was parsed.
pub proof fn lemma_parse_is_encodable(bytes: Seq<u8>)
    requires
        parse_record(bytes) is Some,
    ensures
        parse_record(bytes).unwrap().0.encodable(),
        0 < parse_record(bytes).unwrap().1 <= bytes.len(),
        encode_record(parse_record(bytes).unwrap().0).len() == parse_record(bytes).unwrap().1,
{
    lemma_encode_len(parse_record(bytes).unwrap().0);
}

/// A frame, followed by anything, parses as the record that was encoded, and
/// takes exactly the frame: encoding and then decoding a record gives the
/// record back.
pub proof fn lemma_parse_encoded(r: Record, rest: Seq<u8>)
    requires
        r.encodable(),
    ensures
        parse_record(encode_record(r) + rest) == Some((r, encode_record(r).len() as int)),
{
    lemma_auto_spec_u64_to_from_le_bytes();
    lemma_auto_spec_u128_to_from_le_bytes();
    lemma_encode_len(r);
    let frame = encode_record(r);
    let bytes = frame + rest;
    let key_len = r.key.len() as int;
    assert(bytes.subrange(0, 8) =~= spec_u64_to_le_bytes(r.key.len() as u64));
    match r.value {
        Some(v) => {
            let value_len = v.len() as int;
            assert(bytes[8] == 0);
            assert(bytes.subrange(9, 17) =~= spec_u64_to_le_bytes(v.len() as u64));
            assert(bytes.subrange(17, 17 + key_len) =~= r.key);
            assert(bytes.subrange(17 + key_len, 17 + key_len + value_len) =~= v);
            assert(bytes.subrange(17 + key_len + value_len, 17 + key_len + value_len + 16)
                =~= spec_u128_to_le_bytes(r.timestamp));
        },
        None => {
            assert(bytes[8] == 1);
            assert(bytes.subrange(9, 9 + key_len) =~= r.key);
            assert(bytes.subrange(9 + key_len, 9 + key_len + 16) =~= spec_u128_to_le_bytes(
                r.timestamp,
            ));
        },
    }
}

/// A frame cut short anywhere before its end does not parse.
pub proof fn lemma_parse_truncated(r: Record, cut: int)
    requires
        r.encodable(),
        0 <= cut < encode_record(r).len(),
    ensures
        parse_record(encode_record(r).subrange(0, cut)) is None,
{
    lemma_auto_spec_u64_to_from_le_bytes();
    lemma_auto_spec_u128_to_from_le_bytes();
    lemma_encode_len(r);
    let frame = encode_record(r);
    let bytes = frame.subrange(0, cut);
    if cut >= 9 {
        assert(bytes.subrange(0, 8) =~= spec_u64_to_le_bytes(r.key.len() as u64));
        match r.value {
            Some(v) => {
                assert(bytes[8] == 0);
                if cut >= 17 {
                    assert(bytes.subrange(9, 17) =~= spec_u64_to_le_bytes(v.len() as u64));
                }
            },
            None => {
                assert(bytes[8] == 1);
            },
        }
    }
}

/// The frames of two sequences of records, one after the other, are the
/// frames of the two sequences joined.
pub proof fn lemma_encode_log_concat(a: Seq<Record>, b: Seq<Record>)
    ensures
        encode_log(a + b) == encode_log(a) + encode_log(b),
    decreases b.len(),
{
    if b.len() == 0 {
        assert(a + b == a);
    } else {
        lemma_encode_log_concat(a, b.drop_last());
        assert((a + b).drop_last() == a + b.drop_last());
    }
}

/// Every record read from a segment is well formed and fits a frame.
pub proof fn lemma_parse_log_encodable(bytes: Seq<u8>)
    ensures
        all_encodable(parse_log(bytes)),
    decreases bytes.len(),
{
    match parse_record(bytes) {
        Some((r, n)) => {
            lemma_parse_is_encodable(bytes);
            lemma_parse_log_encodable(bytes.skip(n));
        },
        None => {},
    }
}

/// Reading a segment that starts with the frames of `rs` yields `rs`, and
/// then what the bytes behind those frames yield.
pub proof fn lemma_parse_encoded_log(rs: Seq<Record>, tail: Seq<u8>)
    requires
        all_encodable(rs),
    ensures
        parse_log(encode_log(rs) + tail) == rs + parse_log(tail),
    decreases rs.len(),
{
    if rs.len() == 0 {
        assert(encode_log(rs) + tail == tail);
    } else {
        let first = rs[0];
        let others = rs.skip(1);
        assert(rs == seq![first] + others);
        lemma_encode_log_concat(seq![first], others);
        assert(encode_log(seq![first]) == encode_record(first)) by {
            assert(seq![first].drop_last() == Seq::<Record>::empty());
            assert(encode_log(Seq::<Record>::empty()) + encode_record(first) == encode_record(
                first,
            ));
        }
        let rest = encode_log(others) + tail;
        let bytes = encode_log(rs) + tail;
        assert(bytes == encode_record(first) + rest);
        lemma_parse_encoded(first, rest);
        assert(bytes.skip(encode_record(first).len() as int) == rest);
        lemma_parse_encoded_log(others, tail);
    }
}

/// The frames of `rs`, read back as a segment, yield `rs`.
pub proof fn lemma_parse_log_round_trip(rs: Seq<Record>)
    requires
        all_encodable(rs),
    ensures
        parse_log(encode_log(rs)) == rs,
{
    lemma_parse_encoded_log(rs, Seq::empty());
    assert(encode_log(rs) + Seq::<u8>::empty() == encode_log(rs));
}

/// A segment that holds the frames of `rs` and then a frame cut short
/// anywhere before its end yields `rs`, the records of the part that was not
/// cut.
pub proof fn lemma_parse_log_truncated(rs: Seq<Record>, r: Record, cut: int)
    requires
        all_encodable(rs),
        r.encodable(),
        0 <= cut < encode_record(r).len(),
    ensures
        parse_log(encode_log(rs) + encode_record(r).subrange(0, cut)) == rs,
{
    lemma_parse_truncated(r, cut);
    lemma_parse_encoded_log(rs, encode_record(r).subrange(0, cut));
}

} // verus!
