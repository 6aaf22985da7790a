//! The names of segment files: `<timestamp>.wal`, the timestamp in decimal.

use crate::key_order::{key_lt, lemma_key_lt_common_suffix, lemma_key_lt_push};
use crate::utils::{extension_is, DOT};
use vstd::prelude::*;

verus! {

/// The extension of a segment file's name: `wal`.
pub open spec fn segment_extension() -> Seq<u8> {
    seq![0x77u8, 0x61u8, 0x6cu8]
}

/// The extension of a segment file's name: `wal`.
pub fn wal_extension() -> (ext: Vec<u8>)
    ensures
        ext@ == segment_extension(),
{
    let mut ext: Vec<u8> = Vec::new();
    ext.push(0x77);
    ext.push(0x61);
    ext.push(0x6c);
    assert(ext@ =~= segment_extension());
    ext
}

/// The decimal digits of `n`, most significant first.
pub open spec fn decimal(n: nat) -> Seq<u8>
    decreases n,
{
    if n < 10 {
        seq![(0x30 + n) as u8]
    } else {
        decimal(n / 10).push((0x30 + n % 10) as u8)
    }
}

/// The name of the segment created at `timestamp`: the timestamp in decimal,
/// a dot, and the segment extension.
pub open spec fn segment_name(timestamp: u128) -> Seq<u8> {
    decimal(timestamp as nat) + seq![DOT] + segment_extension()
}

/// A number has at least one digit, and exactly one if it is below ten.
proof fn lemma_decimal_len(n: nat)
    ensures
        decimal(n).len() >= 1,
        decimal(n).len() == 1 <==> n < 10,
    decreases n,
{
    if n >= 10 {
        lemma_decimal_len(n / 10);
    }
}

/// A segment's name has the segment extension, so that recovery finds the
/// segment among the files of its directory.
pub proof fn lemma_segment_name_has_extension(timestamp: u128)
    ensures
        extension_is(segment_name(timestamp), segment_extension()),
{
    let name = segment_name(timestamp);
    lemma_decimal_len(timestamp as nat);
    assert(name.subrange(name.len() - 3, name.len() as int) == segment_extension());
}

/// Forms the name of the segment created at `timestamp`.
pub fn segment_file_name(timestamp: u128) -> (name: Vec<u8>)
    ensures
        name@ == segment_name(timestamp),
        extension_is(name@, segment_extension()),
{
    let mut name: Vec<u8> = Vec::new();
    name.push(0x30 + (timestamp % 10) as u8);
    let mut n = timestamp / 10;
    while n > 0
        invariant
            decimal(timestamp as nat) == (if n > 0 {
                decimal(n as nat)
            } else {
                Seq::<u8>::empty()
            }) + name@,
        decreases n,
    {
        name.insert(0, 0x30 + (n % 10) as u8);
        n = n / 10;
    }
    name.push(DOT);
    let ext = wal_extension();
    name.extend_from_slice(ext.as_slice());
    proof {
        lemma_segment_name_has_extension(timestamp);
        assert(name@ =~= segment_name(timestamp));
    }
    name
}

/// Numbers with the same number of digits are ordered as their digits are.
proof fn lemma_decimal_order(a: nat, b: nat)
    requires
        decimal(a).len() == decimal(b).len(),
    ensures
        key_lt(decimal(a), decimal(b)) <==> a < b,
        decimal(a) == decimal(b) <==> a == b,
    decreases a,
{
    lemma_decimal_len(a);
    lemma_decimal_len(b);
    if a < 10 {
        let x = (0x30 + a) as u8;
        let y = (0x30 + b) as u8;
        lemma_key_lt_push(Seq::<u8>::empty(), Seq::<u8>::empty(), x, y);
        assert(decimal(a) == Seq::<u8>::empty().push(x));
        assert(decimal(b) == Seq::<u8>::empty().push(y));
        assert(decimal(a)[0] == x && decimal(b)[0] == y);
    } else {
        let p = decimal(a / 10);
        let q = decimal(b / 10);
        let x = (0x30 + a % 10) as u8;
        let y = (0x30 + b % 10) as u8;
        lemma_decimal_order(a / 10, b / 10);
        lemma_key_lt_push(p, q, x, y);
        assert(decimal(a)[p.len() as int] == x && decimal(b)[q.len() as int] == y);
        if p == q {
            assert(a / 10 == b / 10);
        } else {
            assert(p.push(x).drop_last() == p);
            assert(q.push(y).drop_last() == q);
        }
    }
}

/// Among segments whose timestamps have the same number of digits, the order
/// of the names is the order of the timestamps: there the order in which
/// recovery replays the segments is the order in which they were created.
pub proof fn lemma_names_order_as_timestamps(a: u128, b: u128)
    requires
        decimal(a as nat).len() == decimal(b as nat).len(),
    ensures
        key_lt(segment_name(a), segment_name(b)) <==> a < b,
{
    let suffix = seq![DOT] + segment_extension();
    lemma_decimal_order(a as nat, b as nat);
    lemma_key_lt_common_suffix(decimal(a as nat), decimal(b as nat), suffix);
    assert(segment_name(a) == decimal(a as nat) + suffix);
    assert(segment_name(b) == decimal(b as nat) + suffix);
}

} // verus!
