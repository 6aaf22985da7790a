//! The table as contracts see it: a sequence of records in strictly
//! ascending key order. What applying an operation does to it, what a reader
//! sees in it, how its bytes are counted, and what holds of it after any
//! sequence of operations.

use crate::key_order::{key_lt, lemma_key_order_total, lemma_key_order_transitive};
use crate::record::Record;
use vstd::prelude::*;

verus! {

/// Bytes counted for the timestamp and the tombstone flag of an entry.
pub const ENTRY_OVERHEAD: usize = 17;

/// The entries are in strictly ascending key order, so no key occurs twice.
pub open spec fn sorted(s: Seq<Record>) -> bool {
    forall|i: int, j: int| 0 <= i < j < s.len() ==> key_lt(#[trigger] s[i].key, #[trigger] s[j].key)
}

/// Number of entries whose key is smaller than `key`: in a sorted table, the
/// place where `key` stands or would be inserted.
pub open spec fn rank(s: Seq<Record>, key: Seq<u8>) -> int
    decreases s.len(),
{
    if s.len() == 0 {
        0
    } else {
        rank(s.drop_last(), key) + if key_lt(s.last().key, key) {
            1int
        } else {
            0int
        }
    }
}

/// The table holds an entry for `key`.
pub open spec fn contains_key(s: Seq<Record>, key: Seq<u8>) -> bool {
    exists|i: int| 0 <= i < s.len() && #[trigger] s[i].key == key
}

/// The entry for `key`, live or tombstone.
pub open spec fn lookup(s: Seq<Record>, key: Seq<u8>) -> Option<Record> {
    if contains_key(s, key) {
        Some(s[choose|i: int| 0 <= i < s.len() && #[trigger] s[i].key == key])
    } else {
        None
    }
}

/// What a reader sees for `key`: its entry, unless that is a tombstone.
pub open spec fn visible(s: Seq<Record>, key: Seq<u8>) -> Option<Record> {
    match lookup(s, key) {
        Some(e) => if e.deleted {
            None
        } else {
            Some(e)
        },
        None => None,
    }
}

/// The table after `e` was applied: `e` takes the place of the entry with its
/// key, or is inserted where the order puts it.
pub open spec fn put(s: Seq<Record>, e: Record) -> Seq<Record> {
    let i = rank(s, e.key);
    if i < s.len() && s[i].key == e.key {
        s.update(i, e)
    } else {
        s.insert(i, e)
    }
}

/// Bytes counted for one entry: key, value, timestamp and flag.
pub open spec fn entry_size(e: Record) -> nat {
    e.key.len() + e.value_len() + ENTRY_OVERHEAD as nat
}

/// Bytes counted for a table: the sum over its entries.
pub open spec fn total_size(s: Seq<Record>) -> nat
    decreases s.len(),
{
    if s.len() == 0 {
        0
    } else {
        total_size(s.drop_last()) + entry_size(s.last())
    }
}

/// By how much applying `e` changes the byte count of the table `s`: a fresh
/// entry adds its whole size, an overwrite the difference of the value
/// lengths.
pub open spec fn size_delta(s: Seq<Record>, e: Record) -> int {
    match lookup(s, e.key) {
        Some(old) => e.value_len() - old.value_len(),
        None => entry_size(e) as int,
    }
}

/// In a sorted table `i` is the rank of `key` if the entries before `i` are
/// smaller than `key` and those from `i` on are not.
pub proof fn lemma_rank_is(s: Seq<Record>, key: Seq<u8>, i: int)
    requires
        0 <= i <= s.len(),
        forall|j: int| 0 <= j < i ==> key_lt(#[trigger] s[j].key, key),
        forall|j: int| i <= j < s.len() ==> !key_lt(#[trigger] s[j].key, key),
    ensures
        rank(s, key) == i,
    decreases s.len(),
{
    if s.len() > 0 {
        let t = s.drop_last();
        if i == s.len() {
            lemma_rank_is(t, key, i - 1);
        } else {
            lemma_rank_is(t, key, i);
        }
    }
}

/// In a sorted table the rank of a key splits the entries: smaller keys
/// before it, the key itself or larger keys from it on.
pub proof fn lemma_rank_splits(s: Seq<Record>, key: Seq<u8>)
    requires
        sorted(s),
    ensures
        0 <= rank(s, key) <= s.len(),
        forall|j: int| 0 <= j < rank(s, key) ==> key_lt(#[trigger] s[j].key, key),
        forall|j: int| rank(s, key) <= j < s.len() ==> !key_lt(#[trigger] s[j].key, key),
    decreases s.len(),
{
    if s.len() > 0 {
        let t = s.drop_last();
        let last = s.len() - 1;
        assert(sorted(t)) by {
            assert forall|i: int, j: int| 0 <= i < j < t.len() implies key_lt(
                #[trigger] t[i].key,
                #[trigger] t[j].key,
            ) by {
                assert(t[i] == s[i] && t[j] == s[j]);
            }
        }
        lemma_rank_splits(t, key);
        let r = rank(t, key);
        assert forall|j: int| 0 <= j < rank(s, key) implies key_lt(#[trigger] s[j].key, key) by {
            if j < last {
                assert(t[j] == s[j]);
                if j >= r {
                    // then the last key is smaller than `key`, and s[j] before it
                    assert(key_lt(s[last].key, key));
                    assert(key_lt(s[j].key, s[last].key));
                    lemma_key_order_transitive(s[j].key, s[last].key, key);
                }
            }
        }
        assert forall|j: int| rank(s, key) <= j < s.len() implies !key_lt(
            #[trigger] s[j].key,
            key,
        ) by {
            if j < last {
                assert(t[j] == s[j]);
            } else {
                if key_lt(s[last].key, key) {
                    // then every entry is smaller, and the rank is the length
                    assert forall|k: int| 0 <= k < t.len() implies key_lt(
                        #[trigger] t[k].key,
                        key,
                    ) by {
                        assert(t[k] == s[k]);
                        assert(key_lt(s[k].key, s[last].key));
                        lemma_key_order_transitive(s[k].key, s[last].key, key);
                    }
                    lemma_rank_is(t, key, t.len() as int);
                }
            }
        }
    }
}

/// In a sorted table each entry is the one found under its key.
pub proof fn lemma_lookup_at(s: Seq<Record>, i: int)
    requires
        sorted(s),
        0 <= i < s.len(),
    ensures
        contains_key(s, s[i].key),
        lookup(s, s[i].key) == Some(s[i]),
{
    let key = s[i].key;
    let c = choose|c: int| 0 <= c < s.len() && #[trigger] s[c].key == key;
    lemma_key_order_total(key, key);
    if c < i {
        assert(key_lt(s[c].key, s[i].key));
    } else if i < c {
        assert(key_lt(s[i].key, s[c].key));
    }
}

/// In a sorted table the rank of an entry's key is the entry's index.
pub proof fn lemma_rank_at(s: Seq<Record>, i: int)
    requires
        sorted(s),
        0 <= i < s.len(),
    ensures
        rank(s, s[i].key) == i,
{
    let key = s[i].key;
    lemma_key_order_total(key, key);
    assert forall|j: int| 0 <= j < i implies key_lt(#[trigger] s[j].key, key) by {
        assert(key_lt(s[j].key, s[i].key));
    }
    assert forall|j: int| i <= j < s.len() implies !key_lt(#[trigger] s[j].key, key) by {
        if i < j {
            assert(key_lt(s[i].key, s[j].key));
            lemma_key_order_total(s[j].key, key);
        }
    }
    lemma_rank_is(s, key, i);
}

/// In a sorted table that holds `key`, the entry for `key` stands at its rank.
pub proof fn lemma_rank_finds(s: Seq<Record>, key: Seq<u8>)
    requires
        sorted(s),
        contains_key(s, key),
    ensures
        0 <= rank(s, key) < s.len(),
        s[rank(s, key)].key == key,
        lookup(s, key) == Some(s[rank(s, key)]),
{
    let c = choose|c: int| 0 <= c < s.len() && #[trigger] s[c].key == key;
    lemma_rank_at(s, c);
    lemma_lookup_at(s, c);
}

/// Applying a record keeps the table sorted.
pub proof fn lemma_put_sorted(s: Seq<Record>, e: Record)
    requires
        sorted(s),
    ensures
        sorted(put(s, e)),
{
    let i = rank(s, e.key);
    let t = put(s, e);
    lemma_rank_splits(s, e.key);
    if i < s.len() && s[i].key == e.key {
        assert forall|a: int, b: int| 0 <= a < b < t.len() implies key_lt(
            #[trigger] t[a].key,
            #[trigger] t[b].key,
        ) by {
            assert(t[a].key == s[a].key && t[b].key == s[b].key);
        }
    } else {
        assert forall|j: int| i <= j < s.len() implies key_lt(e.key, #[trigger] s[j].key) by {
            lemma_key_order_total(s[i].key, e.key);
            if i < j {
                assert(key_lt(s[i].key, s[j].key));
                lemma_key_order_transitive(e.key, s[i].key, s[j].key);
            }
        }
        assert forall|a: int, b: int| 0 <= a < b < t.len() implies key_lt(
            #[trigger] t[a].key,
            #[trigger] t[b].key,
        ) by {
            let a0 = if a < i { a } else { a - 1 };
            let b0 = if b < i { b } else { b - 1 };
            if a != i {
                assert(t[a] == s[a0]);
            }
            if b != i {
                assert(t[b] == s[b0]);
            }
            if a != i && b != i {
                assert(key_lt(s[a0].key, s[b0].key));
            }
        }
    }
}

/// Applying a well-formed record to a table of well-formed entries leaves
/// every entry well formed.
pub proof fn lemma_put_well_formed(s: Seq<Record>, e: Record)
    requires
        sorted(s),
        e.wf(),
        forall|i: int| 0 <= i < s.len() ==> (#[trigger] s[i]).wf(),
    ensures
        forall|i: int| 0 <= i < put(s, e).len() ==> (#[trigger] put(s, e)[i]).wf(),
{
    let t = put(s, e);
    let at = rank(s, e.key);
    lemma_rank_splits(s, e.key);
    assert forall|i: int| 0 <= i < t.len() implies (#[trigger] t[i]).wf() by {
        if i != at {
            let i0 = if i < at || (at < s.len() && s[at].key == e.key) { i } else { i - 1 };
            assert(t[i] == s[i0]);
        }
    }
}

/// After a record was applied, its key leads to it, and every other key to
/// what it led to before.
pub proof fn lemma_put_lookup(s: Seq<Record>, e: Record, key: Seq<u8>)
    requires
        sorted(s),
    ensures
        lookup(put(s, e), key) == (if key == e.key {
            Some(e)
        } else {
            lookup(s, key)
        }),
{
    let i = rank(s, e.key);
    let t = put(s, e);
    let replaced = i < s.len() && s[i].key == e.key;
    lemma_rank_splits(s, e.key);
    lemma_put_sorted(s, e);
    assert(t[i] == e);
    if key == e.key {
        lemma_lookup_at(t, i);
    } else if contains_key(s, key) {
        let c = choose|c: int| 0 <= c < s.len() && #[trigger] s[c].key == key;
        lemma_lookup_at(s, c);
        let d = if replaced || c < i { c } else { c + 1 };
        assert(t[d] == s[c]);
        lemma_lookup_at(t, d);
    } else {
        if contains_key(t, key) {
            let d = choose|d: int| 0 <= d < t.len() && #[trigger] t[d].key == key;
            let c = if replaced || d < i { d } else { d - 1 };
            assert(t[d] == s[c]);
            assert(s[c].key == key);
        }
    }
}

/// A record inserted anywhere adds its size to the byte count.
pub proof fn lemma_total_size_insert(s: Seq<Record>, i: int, e: Record)
    requires
        0 <= i <= s.len(),
    ensures
        total_size(s.insert(i, e)) == total_size(s) + entry_size(e),
    decreases s.len(),
{
    let t = s.insert(i, e);
    if i == s.len() {
        assert(t.drop_last() == s);
    } else {
        assert(t.drop_last() == s.drop_last().insert(i, e));
        lemma_total_size_insert(s.drop_last(), i, e);
    }
}

/// A record put in the place of another changes the byte count by the
/// difference of their sizes.
pub proof fn lemma_total_size_update(s: Seq<Record>, i: int, e: Record)
    requires
        0 <= i < s.len(),
    ensures
        total_size(s.update(i, e)) == total_size(s) - entry_size(s[i]) + entry_size(e),
    decreases s.len(),
{
    let t = s.update(i, e);
    if i == s.len() - 1 {
        assert(t.drop_last() == s.drop_last());
    } else {
        assert(t.drop_last() == s.drop_last().update(i, e));
        lemma_total_size_update(s.drop_last(), i, e);
    }
}

/// The byte count follows the running sum: applying a record to a table
/// changes the count by that record's delta.
pub proof fn lemma_put_size(s: Seq<Record>, e: Record)
    requires
        sorted(s),
    ensures
        total_size(put(s, e)) == total_size(s) + size_delta(s, e),
{
    let i = rank(s, e.key);
    lemma_rank_splits(s, e.key);
    if i < s.len() && s[i].key == e.key {
        lemma_lookup_at(s, i);
        lemma_total_size_update(s, i, e);
    } else {
        if contains_key(s, e.key) {
            lemma_rank_finds(s, e.key);
        }
        lemma_total_size_insert(s, i, e);
    }
}

/// The table that results from applying `ops`, first to last, to an empty
/// table.
pub open spec fn replay(ops: Seq<Record>) -> Seq<Record>
    decreases ops.len(),
{
    if ops.len() == 0 {
        Seq::empty()
    } else {
        put(replay(ops.drop_last()), ops.last())
    }
}

/// The last of `ops` that is on `key`, if any is.
pub open spec fn last_op(ops: Seq<Record>, key: Seq<u8>) -> Option<Record>
    decreases ops.len(),
{
    if ops.len() == 0 {
        None
    } else if ops.last().key == key {
        Some(ops.last())
    } else {
        last_op(ops.drop_last(), key)
    }
}

/// The byte count kept while `ops` are applied one by one: each adds its
/// delta against the table as it stands when the operation arrives.
pub open spec fn running_size(ops: Seq<Record>) -> int
    decreases ops.len(),
{
    if ops.len() == 0 {
        0
    } else {
        running_size(ops.drop_last()) + size_delta(replay(ops.drop_last()), ops.last())
    }
}

/// After any sequence of operations the entries are in strictly ascending
/// key order, so no key occurs twice.
pub proof fn lemma_replay_sorted(ops: Seq<Record>)
    ensures
        sorted(replay(ops)),
    decreases ops.len(),
{
    if ops.len() > 0 {
        lemma_replay_sorted(ops.drop_last());
        lemma_put_sorted(replay(ops.drop_last()), ops.last());
    }
}

/// After any sequence of operations the entry for a key is the last
/// operation on that key; a key that no operation was on has no entry.
pub proof fn lemma_replay_lookup(ops: Seq<Record>, key: Seq<u8>)
    ensures
        lookup(replay(ops), key) == last_op(ops, key),
    decreases ops.len(),
{
    if ops.len() > 0 {
        lemma_replay_sorted(ops.drop_last());
        lemma_replay_lookup(ops.drop_last(), key);
        lemma_put_lookup(replay(ops.drop_last()), ops.last(), key);
    }
}

/// A reader sees nothing for a key exactly when the last operation on it was
/// a delete, or when there was no operation on it.
pub proof fn lemma_tombstone_visibility(ops: Seq<Record>, key: Seq<u8>)
    ensures
        visible(replay(ops), key) is None <==> (last_op(ops, key) is None || last_op(
            ops,
            key,
        ).unwrap().deleted),
{
    lemma_replay_lookup(ops, key);
}

/// Where the last operation on a key is a set, a reader sees that set, with
/// its value and its timestamp, whatever came before it and whatever the
/// timestamps are.
pub proof fn lemma_last_write_wins(ops: Seq<Record>, key: Seq<u8>)
    requires
        last_op(ops, key) is Some,
        !last_op(ops, key).unwrap().deleted,
    ensures
        visible(replay(ops), key) == last_op(ops, key),
{
    lemma_replay_lookup(ops, key);
}

/// After any sequence of operations, and so after each of its prefixes, the
/// byte count of the table is the running sum of the operations' deltas.
pub proof fn lemma_size_is_running_sum(ops: Seq<Record>)
    ensures
        total_size(replay(ops)) == running_size(ops),
    decreases ops.len(),
{
    if ops.len() > 0 {
        lemma_replay_sorted(ops.drop_last());
        lemma_size_is_running_sum(ops.drop_last());
        lemma_put_size(replay(ops.drop_last()), ops.last());
    }
}

/// A sorted table without its last entry: that entry's key leads nowhere,
/// every other key where it led before.
proof fn lemma_lookup_without_last(s: Seq<Record>, key: Seq<u8>)
    requires
        sorted(s),
        s.len() > 0,
    ensures
        sorted(s.drop_last()),
        lookup(s.drop_last(), key) == (if key == s.last().key {
            None
        } else {
            lookup(s, key)
        }),
{
    let t = s.drop_last();
    let last = s.len() - 1;
    assert forall|i: int, j: int| 0 <= i < j < t.len() implies key_lt(
        #[trigger] t[i].key,
        #[trigger] t[j].key,
    ) by {
        assert(t[i] == s[i] && t[j] == s[j]);
    }
    if contains_key(t, key) {
        let c = choose|c: int| 0 <= c < t.len() && #[trigger] t[c].key == key;
        assert(t[c] == s[c]);
        lemma_lookup_at(t, c);
        lemma_lookup_at(s, c);
        assert(key_lt(s[c].key, s[last].key));
        lemma_key_order_total(key, s[last].key);
    } else if contains_key(s, key) {
        let c = choose|c: int| 0 <= c < s.len() && #[trigger] s[c].key == key;
        if c < last {
            assert(t[c] == s[c]);
        }
    }
}

/// A sorted table is determined by what each key leads to: two sorted tables
/// in which every key leads to the same entry, or to none, are the same.
pub proof fn lemma_table_extensional(s: Seq<Record>, t: Seq<Record>)
    requires
        sorted(s),
        sorted(t),
        forall|key: Seq<u8>| lookup(s, key) == lookup(t, key),
    ensures
        s == t,
    decreases s.len(),
{
    if s.len() == 0 {
        if t.len() > 0 {
            lemma_lookup_at(t, 0);
            assert(lookup(s, t[0].key) == lookup(t, t[0].key));
        }
        assert(s =~= t);
    } else {
        let last = s.len() - 1;
        let m = s[last];
        lemma_lookup_at(s, last);
        assert(lookup(t, m.key) == lookup(s, m.key));
        lemma_rank_finds(t, m.key);
        let j = rank(t, m.key);
        assert(t[j] == m);
        if j < t.len() - 1 {
            // a key of `t` behind `m` would be a key of `s` behind its last
            let k = t[j + 1].key;
            assert(key_lt(t[j].key, t[j + 1].key));
            lemma_lookup_at(t, j + 1);
            assert(lookup(s, k) == lookup(t, k));
            let c = choose|c: int| 0 <= c < s.len() && #[trigger] s[c].key == k;
            lemma_key_order_total(m.key, k);
            if c < last {
                assert(key_lt(s[c].key, s[last].key));
            }
        }
        assert forall|key: Seq<u8>| lookup(s.drop_last(), key) == lookup(t.drop_last(), key) by {
            lemma_lookup_without_last(s, key);
            lemma_lookup_without_last(t, key);
            assert(lookup(s, key) == lookup(t, key));
        }
        lemma_lookup_without_last(s, m.key);
        lemma_lookup_without_last(t, m.key);
        lemma_table_extensional(s.drop_last(), t.drop_last());
        assert(s == s.drop_last().push(m));
        assert(t == t.drop_last().push(m));
    }
}

/// The last operation on a key in two sequences of operations, one after the
/// other: that of the second, or where the second has none, that of the
/// first.
pub proof fn lemma_last_op_concat(a: Seq<Record>, b: Seq<Record>, key: Seq<u8>)
    ensures
        last_op(a + b, key) == (match last_op(b, key) {
            Some(e) => Some(e),
            None => last_op(a, key),
        }),
    decreases b.len(),
{
    if b.len() == 0 {
        assert(a + b == a);
    } else {
        assert((a + b).drop_last() == a + b.drop_last());
        lemma_last_op_concat(a, b.drop_last(), key);
    }
}

/// Replaying a sequence of operations and then the same sequence once more
/// gives the table that replaying it once gives.
pub proof fn lemma_replay_repeated(ops: Seq<Record>)
    ensures
        replay(ops + ops) == replay(ops),
{
    lemma_replay_sorted(ops + ops);
    lemma_replay_sorted(ops);
    assert forall|key: Seq<u8>| lookup(replay(ops + ops), key) == lookup(replay(ops), key) by {
        lemma_replay_lookup(ops + ops, key);
        lemma_replay_lookup(ops, key);
        lemma_last_op_concat(ops, ops, key);
    }
    lemma_table_extensional(replay(ops + ops), replay(ops));
}

} // verus!
