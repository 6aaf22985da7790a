//! Lexicographic order on byte strings, the order in which keys are kept.

use vstd::prelude::*;

verus! {

/// Outcome of comparing two keys.
#[derive(Clone, Copy, Debug, PartialEq, Eq, Structural)]
pub enum KeyOrder {
    Less,
    Equal,
    Greater,
}

/// `a` is smaller than `b`, looking only at positions `i` and later.
pub open spec fn key_lt_from(a: Seq<u8>, b: Seq<u8>, i: int) -> bool
    decreases b.len() - i,
{
    if i < 0 || i >= b.len() {
        false
    } else if i >= a.len() {
        true
    } else if a[i] != b[i] {
        a[i] < b[i]
    } else {
        key_lt_from(a, b, i + 1)
    }
}

/// `a` comes strictly before `b` in lexicographic byte order: at the first
/// position where they differ `a` holds the smaller byte, or `a` is a proper
/// prefix of `b`.
pub open spec fn key_lt(a: Seq<u8>, b: Seq<u8>) -> bool {
    key_lt_from(a, b, 0)
}

/// The two keys hold the same bytes up to position `i`.
pub open spec fn same_prefix(a: Seq<u8>, b: Seq<u8>, i: int) -> bool {
    &&& 0 <= i <= a.len()
    &&& i <= b.len()
    &&& forall|j: int| 0 <= j < i ==> a[j] == b[j]
}

/// Behind a common prefix exactly one of the three holds.
proof fn lemma_trichotomy_from(a: Seq<u8>, b: Seq<u8>, i: int)
    requires
        same_prefix(a, b, i),
    ensures
        key_lt_from(a, b, i) || key_lt_from(b, a, i) || a == b,
        !(key_lt_from(a, b, i) && key_lt_from(b, a, i)),
        a == b ==> !key_lt_from(a, b, i) && !key_lt_from(b, a, i),
    decreases a.len() - i,
{
    if i < a.len() && i < b.len() {
        if a[i] == b[i] {
            lemma_trichotomy_from(a, b, i + 1);
        }
    } else if i == a.len() && i == b.len() {
        assert(a =~= b);
    }
}

/// Transitivity, looking only at positions `i` and later.
proof fn lemma_transitive_from(a: Seq<u8>, b: Seq<u8>, c: Seq<u8>, i: int)
    requires
        0 <= i,
        key_lt_from(a, b, i),
        key_lt_from(b, c, i),
    ensures
        key_lt_from(a, c, i),
    decreases c.len() - i,
{
    if i < a.len() && a[i] == b[i] && b[i] == c[i] {
        lemma_transitive_from(a, b, c, i + 1);
    }
}

/// `a` runs out at position `i` while `b` goes on, or both go on and `a` holds
/// the smaller byte there.
pub open spec fn smaller_at(a: Seq<u8>, b: Seq<u8>, i: int) -> bool {
    ||| i == a.len() && i < b.len()
    ||| i < a.len() && i < b.len() && a[i] < b[i]
}

/// Behind a common prefix of length `i`, `a` is smaller exactly when a later
/// position decides for it.
proof fn lemma_first_difference_from(a: Seq<u8>, b: Seq<u8>, i: int)
    requires
        same_prefix(a, b, i),
    ensures
        key_lt_from(a, b, i) <==> exists|k: int|
            i <= k && #[trigger] same_prefix(a, b, k) && smaller_at(a, b, k),
    decreases a.len() - i,
{
    if i < a.len() && i < b.len() && a[i] == b[i] {
        lemma_first_difference_from(a, b, i + 1);
        if key_lt_from(a, b, i) {
            let k = choose|k: int|
                i + 1 <= k && #[trigger] same_prefix(a, b, k) && smaller_at(a, b, k);
            assert(i <= k && same_prefix(a, b, k) && smaller_at(a, b, k));
        }
    } else if key_lt_from(a, b, i) {
        assert(same_prefix(a, b, i) && smaller_at(a, b, i));
    } else if exists|k: int| i <= k && #[trigger] same_prefix(a, b, k) && smaller_at(a, b, k) {
        let k = choose|k: int| i <= k && #[trigger] same_prefix(a, b, k) && smaller_at(a, b, k);
        if i < k {
            assert(a[i] == b[i]);
        }
    }
}

/// `a` is smaller than `b` exactly when, behind a common prefix, `a` ends and
/// `b` goes on, or `a` holds the smaller byte.
pub proof fn lemma_key_lt_first_difference(a: Seq<u8>, b: Seq<u8>)
    ensures
        key_lt(a, b) <==> exists|k: int| #[trigger] same_prefix(a, b, k) && smaller_at(a, b, k),
{
    lemma_first_difference_from(a, b, 0);
    if key_lt(a, b) {
        let k = choose|k: int| 0 <= k && #[trigger] same_prefix(a, b, k) && smaller_at(a, b, k);
        assert(same_prefix(a, b, k) && smaller_at(a, b, k));
    } else if exists|k: int| #[trigger] same_prefix(a, b, k) && smaller_at(a, b, k) {
        let k = choose|k: int| #[trigger] same_prefix(a, b, k) && smaller_at(a, b, k);
        assert(0 <= k && same_prefix(a, b, k) && smaller_at(a, b, k));
    }
}

/// Of two keys exactly one holds: the first is smaller, the second is
/// smaller, or they are the same key.
pub proof fn lemma_key_order_total(a: Seq<u8>, b: Seq<u8>)
    ensures
        key_lt(a, b) || key_lt(b, a) || a == b,
        !(key_lt(a, b) && key_lt(b, a)),
        a == b ==> !key_lt(a, b) && !key_lt(b, a),
{
    lemma_trichotomy_from(a, b, 0);
}

/// The order is transitive.
pub proof fn lemma_key_order_transitive(a: Seq<u8>, b: Seq<u8>, c: Seq<u8>)
    requires
        key_lt(a, b),
        key_lt(b, c),
    ensures
        key_lt(a, c),
{
    lemma_transitive_from(a, b, c, 0);
}

/// Keys of one length that agree from `i` on are not smaller than one
/// another from `i` on.
proof fn lemma_same_tail_from(a: Seq<u8>, b: Seq<u8>, i: int)
    requires
        a.len() == b.len(),
        0 <= i,
        forall|j: int| i <= j < a.len() ==> a[j] == b[j],
    ensures
        !key_lt_from(a, b, i),
    decreases a.len() - i,
{
    if i < a.len() {
        lemma_same_tail_from(a, b, i + 1);
    }
}

/// The order of two keys of one length with a byte added to each, from
/// position `i` on.
proof fn lemma_push_from(p: Seq<u8>, q: Seq<u8>, x: u8, y: u8, i: int)
    requires
        p.len() == q.len(),
        0 <= i <= p.len(),
    ensures
        key_lt_from(p.push(x), q.push(y), i) == (key_lt_from(p, q, i) || ((forall|j: int|
            i <= j < p.len() ==> p[j] == q[j]) && x < y)),
    decreases p.len() - i,
{
    if i < p.len() {
        assert(p.push(x)[i] == p[i] && q.push(y)[i] == q[i]);
        lemma_push_from(p, q, x, y, i + 1);
    } else {
        assert(p.push(x)[i] == x && q.push(y)[i] == y);
        assert(!key_lt_from(p.push(x), q.push(y), i + 1));
    }
}

/// The order of two keys of one length with the same bytes added to each,
/// from position `i` on.
proof fn lemma_common_suffix_from(p: Seq<u8>, q: Seq<u8>, s: Seq<u8>, i: int)
    requires
        p.len() == q.len(),
        0 <= i <= p.len(),
    ensures
        key_lt_from(p + s, q + s, i) == key_lt_from(p, q, i),
    decreases p.len() - i,
{
    if i < p.len() {
        assert((p + s)[i] == p[i] && (q + s)[i] == q[i]);
        lemma_common_suffix_from(p, q, s, i + 1);
    } else {
        lemma_same_tail_from(p + s, q + s, i);
    }
}

/// Two keys of one length, each with one more byte behind it, compare as the
/// keys do; if the keys are the same, as the added bytes do.
pub proof fn lemma_key_lt_push(p: Seq<u8>, q: Seq<u8>, x: u8, y: u8)
    requires
        p.len() == q.len(),
    ensures
        key_lt(p.push(x), q.push(y)) == (key_lt(p, q) || (p == q && x < y)),
{
    lemma_push_from(p, q, x, y, 0);
    if forall|j: int| 0 <= j < p.len() ==> p[j] == q[j] {
        assert(p =~= q);
    }
}

/// Two keys of one length with the same bytes added behind each compare as
/// the keys themselves do.
pub proof fn lemma_key_lt_common_suffix(p: Seq<u8>, q: Seq<u8>, s: Seq<u8>)
    requires
        p.len() == q.len(),
    ensures
        key_lt(p + s, q + s) == key_lt(p, q),
{
    lemma_common_suffix_from(p, q, s, 0);
}

/// Compares two keys in lexicographic byte order.
pub fn compare_keys(a: &[u8], b: &[u8]) -> (r: KeyOrder)
    ensures
        r == KeyOrder::Less <==> key_lt(a@, b@),
        r == KeyOrder::Equal <==> a@ == b@,
        r == KeyOrder::Greater <==> key_lt(b@, a@),
{
    let mut i: usize = 0;
    while i < a.len() && i < b.len()
        invariant
            same_prefix(a@, b@, i as int),
            key_lt(a@, b@) == key_lt_from(a@, b@, i as int),
            key_lt(b@, a@) == key_lt_from(b@, a@, i as int),
        decreases a.len() - i,
    {
        if a[i] < b[i] {
            proof {
                lemma_trichotomy_from(a@, b@, i as int);
            }
            return KeyOrder::Less;
        }
        if a[i] > b[i] {
            proof {
                lemma_trichotomy_from(a@, b@, i as int);
            }
            return KeyOrder::Greater;
        }
        i += 1;
    }
    proof {
        lemma_trichotomy_from(a@, b@, i as int);
    }
    if a.len() < b.len() {
        KeyOrder::Less
    } else if a.len() > b.len() {
        KeyOrder::Greater
    } else {
        KeyOrder::Equal
    }
}

} // verus!
