//! The files of a log directory: which of them are segments, and in which
//! order they are replayed.

use crate::key_order::{
    compare_keys, key_lt, lemma_key_order_total, lemma_key_order_transitive, KeyOrder,
};
use vstd::prelude::*;

verus! {

/// The byte `.`, which parts a file name from its extension.
pub const DOT: u8 = 0x2e;

/// A file of the log directory: its name and its contents.
pub struct SegmentFile {
    pub name: Vec<u8>,
    pub data: Vec<u8>,
}

/// A file as contracts see it.
pub struct FileView {
    pub name: Seq<u8>,
    pub data: Seq<u8>,
}

impl View for SegmentFile {
    type V = FileView;

    /// Name and contents of the file.
    open spec fn view(&self) -> FileView {
        FileView { name: self.name@, data: self.data@ }
    }
}

/// The files that a vector of files stands for.
pub open spec fn files_view(v: Seq<SegmentFile>) -> Seq<FileView> {
    v.map_values(|f: SegmentFile| f@)
}

/// `name` is a nonempty stem, a dot, and `ext`, where `ext` holds no dot:
/// what follows the last dot of the name is `ext`.
pub open spec fn extension_is(name: Seq<u8>, ext: Seq<u8>) -> bool {
    let n = name.len() as int;
    let m = ext.len() as int;
    &&& n >= m + 2
    &&& name[n - m - 1] == DOT
    &&& name.subrange(n - m, n) == ext
    &&& forall|j: int| 0 <= j < m ==> ext[j] != DOT
}

/// Whether the file name has the given extension.
pub fn has_extension(name: &[u8], ext: &[u8]) -> (b: bool)
    ensures
        b == extension_is(name@, ext@),
{
    let n = name.len();
    let m = ext.len();
    if n < 2 || n - 2 < m {
        return false;
    }
    if name[n - m - 1] != DOT {
        return false;
    }
    let mut j: usize = 0;
    while j < m
        invariant
            n == name@.len(),
            m == ext@.len(),
            n >= m + 2,
            0 <= j <= m,
            forall|k: int| 0 <= k < j ==> ext@[k] != DOT && name@[n - m + k] == ext@[k],
        decreases m - j,
    {
        if ext[j] == DOT || name[n - m + j] != ext[j] {
            proof {
                if name@[n - m + j] != ext@[j as int] {
                    assert(name@.subrange(n - m, n as int)[j as int] == name@[n - m + j]);
                }
            }
            return false;
        }
        j += 1;
    }
    assert(name@.subrange(n - m, n as int) =~= ext@);
    true
}

/// Gets the files with an extension out of the files of a directory, in the
/// order in which they were listed.
pub fn files_with_ext(dir: Vec<SegmentFile>, ext: &[u8]) -> (files: Vec<SegmentFile>)
    ensures
        files_view(files@) == files_view(dir@).filter(|f: FileView| extension_is(f.name, ext@)),
{
    let mut files: Vec<SegmentFile> = Vec::new();
    let ghost all = files_view(dir@);
    let ghost pred = |f: FileView| extension_is(f.name, ext@);
    let ghost listed = dir@;
    for file in it: dir
        invariant
            it.seq() == listed,
            all == files_view(listed),
            pred == |f: FileView| extension_is(f.name, ext@),
            files_view(files@) == all.take(it.index() as int).filter(pred),
    {
        proof {
            let i = it.index() as int;
            assert(file == listed[i]);
            assert(all.take(i + 1) == all.take(i).push(file@));
            all.take(i).lemma_filter_push(file@, pred);
        }
        if has_extension(file.name.as_slice(), ext) {
            let ghost before = files@;
            let ghost pushed = file@;
            files.push(file);
            assert(files_view(files@) == files_view(before).push(pushed));
        }
    }
    assert(all.take(all.len() as int) == all);
    files
}

/// Number of files at the start of `s` whose names are smaller than `name`:
/// in a list ordered by name, the place before the first file whose name is
/// not smaller.
pub open spec fn insert_pos(s: Seq<FileView>, name: Seq<u8>) -> int
    decreases s.len(),
{
    if s.len() == 0 || !key_lt(s[0].name, name) {
        0
    } else {
        1 + insert_pos(s.skip(1), name)
    }
}

/// The list `s` with `f` put before the first file whose name is not smaller
/// than its own.
pub open spec fn insert_by_name(s: Seq<FileView>, f: FileView) -> Seq<FileView> {
    s.insert(insert_pos(s, f.name), f)
}

/// The files in ascending order of their names, by lexicographic byte order;
/// files of one name stay in the order in which they were listed.
pub open spec fn sorted_by_name(s: Seq<FileView>) -> Seq<FileView>
    decreases s.len(),
{
    if s.len() == 0 {
        s
    } else {
        insert_by_name(sorted_by_name(s.skip(1)), s[0])
    }
}

/// No file stands before one with a smaller name.
pub open spec fn ordered_by_name(s: Seq<FileView>) -> bool {
    forall|i: int, j: int|
        0 <= i < j < s.len() ==> !key_lt(#[trigger] s[j].name, #[trigger] s[i].name)
}

/// The files before the insert position have smaller names; the file at it,
/// if there is one, has not.
proof fn lemma_insert_pos(s: Seq<FileView>, name: Seq<u8>)
    ensures
        0 <= insert_pos(s, name) <= s.len(),
        forall|j: int| 0 <= j < insert_pos(s, name) ==> key_lt(#[trigger] s[j].name, name),
        insert_pos(s, name) < s.len() ==> !key_lt(s[insert_pos(s, name)].name, name),
    decreases s.len(),
{
    if s.len() > 0 && key_lt(s[0].name, name) {
        let t = s.skip(1);
        lemma_insert_pos(t, name);
        assert forall|j: int| 0 <= j < insert_pos(s, name) implies key_lt(
            #[trigger] s[j].name,
            name,
        ) by {
            if j > 0 {
                assert(s[j] == t[j - 1]);
            }
        }
        if insert_pos(s, name) < s.len() {
            assert(s[insert_pos(s, name)] == t[insert_pos(t, name)]);
        }
    }
}

/// Inserting a file into a list ordered by name keeps the list ordered.
proof fn lemma_insert_ordered(s: Seq<FileView>, f: FileView)
    requires
        ordered_by_name(s),
    ensures
        ordered_by_name(insert_by_name(s, f)),
{
    let p = insert_pos(s, f.name);
    let t = insert_by_name(s, f);
    lemma_insert_pos(s, f.name);
    assert forall|i: int, j: int| 0 <= i < j < t.len() implies !key_lt(
        #[trigger] t[j].name,
        #[trigger] t[i].name,
    ) by {
        let i0 = if i < p { i } else { i - 1 };
        let j0 = if j < p { j } else { j - 1 };
        if i == p {
            // t[j] stands at or behind s[p], which is not smaller than `f`
            assert(t[j] == s[j0]);
            if key_lt(s[j0].name, f.name) {
                lemma_key_order_total(s[j0].name, s[p].name);
                if p < j0 {
                    assert(!key_lt(s[j0].name, s[p].name));
                    if key_lt(s[p].name, s[j0].name) {
                        lemma_key_order_transitive(s[p].name, s[j0].name, f.name);
                    }
                }
            }
        } else if j == p {
            assert(t[i] == s[i0]);
            lemma_key_order_total(f.name, s[i0].name);
        } else {
            assert(t[i] == s[i0] && t[j] == s[j0]);
        }
    }
}

/// The sorted list is ordered by name.
pub proof fn lemma_sorted_is_ordered(s: Seq<FileView>)
    ensures
        ordered_by_name(sorted_by_name(s)),
    decreases s.len(),
{
    if s.len() > 0 {
        lemma_sorted_is_ordered(s.skip(1));
        lemma_insert_ordered(sorted_by_name(s.skip(1)), s[0]);
    }
}

/// The sorted list holds the files that were listed, each as often as it was
/// listed.
pub proof fn lemma_sorted_is_permutation(s: Seq<FileView>)
    ensures
        sorted_by_name(s).to_multiset() == s.to_multiset(),
        sorted_by_name(s).len() == s.len(),
    decreases s.len(),
{
    broadcast use vstd::seq_lib::group_to_multiset_ensures;

    if s.len() > 0 {
        let rest = sorted_by_name(s.skip(1));
        lemma_sorted_is_permutation(s.skip(1));
        lemma_insert_pos(rest, s[0].name);
        let p = insert_pos(rest, s[0].name);
        let t = rest.insert(p, s[0]);
        assert(t.remove(p) == rest);
        assert(t.to_multiset().remove(s[0]) == rest.to_multiset());
        assert(s.remove(0) == s.skip(1));
        assert(s.to_multiset().remove(s[0]) == s.skip(1).to_multiset());
        assert(t.to_multiset().count(s[0]) > 0) by {
            assert(t[p] == s[0]);
            assert(t.contains(s[0]));
        }
        assert(s.to_multiset().count(s[0]) > 0) by {
            assert(s.contains(s[0]));
        }
        assert(t.to_multiset() =~= t.to_multiset().remove(s[0]).insert(s[0]));
        assert(s.to_multiset() =~= s.to_multiset().remove(s[0]).insert(s[0]));
    }
}

/// A file with a larger name added at the end does not move the insert
/// position of `name`.
proof fn lemma_insert_pos_push(r: Seq<FileView>, x: FileView, name: Seq<u8>)
    requires
        key_lt(name, x.name),
    ensures
        insert_pos(r.push(x), name) == insert_pos(r, name),
    decreases r.len(),
{
    lemma_key_order_total(name, x.name);
    if r.len() > 0 && key_lt(r[0].name, name) {
        assert(r.push(x).skip(1) == r.skip(1).push(x));
        lemma_insert_pos_push(r.skip(1), x, name);
    }
}

/// A file whose name is larger than every name listed before it comes last
/// in the sorted list, behind the others in their sorted order.
pub proof fn lemma_sorted_push_largest(s: Seq<FileView>, x: FileView)
    requires
        forall|i: int| 0 <= i < s.len() ==> key_lt(#[trigger] s[i].name, x.name),
    ensures
        sorted_by_name(s.push(x)) == sorted_by_name(s).push(x),
    decreases s.len(),
{
    if s.len() == 0 {
        assert(s.push(x).skip(1) == Seq::<FileView>::empty());
        assert(sorted_by_name(s.push(x).skip(1)) == Seq::<FileView>::empty());
    } else {
        let rest = sorted_by_name(s.skip(1));
        assert(s.push(x).skip(1) == s.skip(1).push(x));
        assert forall|i: int| 0 <= i < s.skip(1).len() implies key_lt(
            #[trigger] s.skip(1)[i].name,
            x.name,
        ) by {
            assert(s.skip(1)[i] == s[i + 1]);
        }
        lemma_sorted_push_largest(s.skip(1), x);
        lemma_insert_pos_push(rest, x, s[0].name);
        lemma_insert_pos(rest, s[0].name);
        let p = insert_pos(rest, s[0].name);
        assert(rest.push(x).insert(p, s[0]) == rest.insert(p, s[0]).push(x));
    }
}

/// Where a file of this name goes into a list ordered by name.
fn insert_position(sorted: &Vec<SegmentFile>, name: &[u8]) -> (p: usize)
    ensures
        p == insert_pos(files_view(sorted@), name@),
{
    let ghost s = files_view(sorted@);
    let mut i: usize = 0;
    assert(s.skip(0) == s);
    while i < sorted.len()
        invariant
            s == files_view(sorted@),
            0 <= i <= sorted@.len(),
            insert_pos(s, name@) == i + insert_pos(s.skip(i as int), name@),
        decreases sorted.len() - i,
    {
        assert(s.skip(i as int)[0] == sorted@[i as int]@);
        match compare_keys(sorted[i].name.as_slice(), name) {
            KeyOrder::Less => {
                assert(s.skip(i as int).skip(1) == s.skip(i + 1));
                i += 1;
            },
            _ => {
                return i;
            },
        }
    }
    i
}

/// Sorts the files by name, in lexicographic byte order.
pub fn sort_by_name(files: Vec<SegmentFile>) -> (sorted: Vec<SegmentFile>)
    ensures
        files_view(sorted@) == sorted_by_name(files_view(files@)),
{
    let ghost all = files_view(files@);
    let mut rest = files;
    let mut sorted: Vec<SegmentFile> = Vec::new();
    assert(all.skip(all.len() as int) == Seq::<FileView>::empty());
    loop
        invariant
            all == files_view(files@),
            rest@.len() <= all.len(),
            files_view(rest@) == all.take(rest@.len() as int),
            files_view(sorted@) == sorted_by_name(all.skip(rest@.len() as int)),
        decreases rest@.len(),
    {
        let ghost n = rest@.len() as int;
        match rest.pop() {
            Some(file) => {
                let ghost before = sorted@;
                let ghost f = file@;
                let p = insert_position(&sorted, file.name.as_slice());
                proof {
                    lemma_insert_pos(files_view(before), f.name);
                    assert(f == all.take(n)[n - 1]);
                    assert(all.skip(n - 1)[0] == f);
                    assert(all.skip(n - 1).skip(1) == all.skip(n));
                    assert(files_view(rest@) == all.take(n - 1));
                }
                sorted.insert(p, file);
                assert(files_view(sorted@) == files_view(before).insert(p as int, f));
            },
            None => {
                assert(all.skip(0) == all);
                return sorted;
            },
        }
    }
}

} // verus!
