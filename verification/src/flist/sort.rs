//! The order of a file list.
//!
//! Both ends of a connection number the files by this order: a directory
//! comes before what is in it, and the plain files of a directory come before
//! its subdirectories.

use vstd::prelude::*;
use vstd::utf8::{encode_utf8, encode_utf8_decode_utf8, is_ascii_chars_encode_utf8};

use crate::protocol::types::{entries, FileEntry, FileInfo, FileList, FileType};
use crate::text::{begins_with, lemma_encode_concat, lemma_encode_len, lemma_encode_slash};

verus! {

/// What stands for one byte of a plain file's name in a sort key.
pub open spec fn item_symbol(b: u8) -> int {
    b + 1
}

/// What stands for one byte of a directory's path in a sort key: it comes
/// behind every byte of a plain file's name.
pub open spec fn path_symbol(b: u8) -> int {
    b + 257
}

/// Whether a name is the single dot that stands for the directory itself.
pub open spec fn is_dot(base: Seq<u8>) -> bool {
    base.len() == 1 && base[0] == 0x2e
}

/// The sort key of the directory that an entry is in.
pub open spec fn dir_key(dir: Seq<u8>) -> Seq<int> {
    if dir.len() == 0 {
        Seq::empty()
    } else {
        Seq::new(dir.len(), |i: int| path_symbol(dir[i])).push(path_symbol(0x2f))
    }
}

/// The sort key of the last component of an entry's path.
pub open spec fn base_key(base: Seq<u8>, is_dir: bool) -> Seq<int> {
    if is_dir {
        if is_dot(base) {
            Seq::empty()
        } else {
            Seq::new(base.len(), |i: int| path_symbol(base[i])).push(path_symbol(0x2f))
        }
    } else {
        Seq::new(base.len(), |i: int| item_symbol(base[i]))
    }
}

/// The bytes of the directory of an entry; none at the top level.
pub open spec fn dir_bytes(f: FileEntry) -> Seq<u8> {
    match f.dirname {
        Some(d) => encode_utf8(d),
        None => Seq::empty(),
    }
}

/// The sort key of an entry.
pub open spec fn sort_key(f: FileEntry) -> Seq<int> {
    dir_key(dir_bytes(f)) + base_key(encode_utf8(f.name), f.file_type() == FileType::Dir)
}

/// Whether `a` comes before `b` in lexicographic order, looking only at
/// positions from `k` on.
pub open spec fn lex_less(a: Seq<int>, b: Seq<int>, k: nat) -> bool
    decreases a.len() - k,
{
    if k >= b.len() {
        false
    } else if k >= a.len() {
        true
    } else if a[k as int] == b[k as int] {
        lex_less(a, b, k + 1)
    } else {
        a[k as int] < b[k as int]
    }
}

/// Whether the entry `a` sorts before the entry `b`.
pub open spec fn entry_less(a: FileEntry, b: FileEntry) -> bool {
    lex_less(sort_key(a), sort_key(b), 0)
}

/// Whether position `i` comes before position `j` when the entries are
/// sorted and those that sort alike keep their order.
pub open spec fn sorts_before(fs: Seq<FileEntry>, i: int, j: int) -> bool {
    entry_less(fs[i], fs[j]) || (!entry_less(fs[j], fs[i]) && i < j)
}

/// Whether `order` lists the positions of `fs` in sorted order.
pub open spec fn is_sort_order(fs: Seq<FileEntry>, order: Seq<int>) -> bool {
    &&& order.len() == fs.len()
    &&& forall|k: int| 0 <= k < fs.len() <==> order.contains(k)
    &&& forall|i: int, j: int|
        0 <= i < j < order.len() ==> sorts_before(fs, #[trigger] order[i], #[trigger] order[j])
}

/// Whether no entry of `fs` sorts before one that stands in front of it.
pub open spec fn is_sorted(fs: Seq<FileEntry>) -> bool {
    forall|i: int, j: int| 0 <= i < j < fs.len() ==> !entry_less(#[trigger] fs[j], #[trigger] fs[i])
}

// ---------------------------------------------------------------------------
// The order is total
// ---------------------------------------------------------------------------

proof fn lemma_lex_irreflexive(a: Seq<int>, k: nat)
    ensures
        !lex_less(a, a, k),
    decreases a.len() - k,
{
    if k < a.len() {
        lemma_lex_irreflexive(a, k + 1);
    }
}

proof fn lemma_lex_asymmetric(a: Seq<int>, b: Seq<int>, k: nat)
    ensures
        !(lex_less(a, b, k) && lex_less(b, a, k)),
    decreases a.len() - k,
{
    if k < a.len() && k < b.len() && a[k as int] == b[k as int] {
        lemma_lex_asymmetric(a, b, k + 1);
    }
}

/// `a` not behind `b` and `b` not behind `c` make `a` not behind `c`.
proof fn lemma_lex_negatively_transitive(a: Seq<int>, b: Seq<int>, c: Seq<int>, k: nat)
    requires
        !lex_less(b, a, k),
        !lex_less(c, b, k),
    ensures
        !lex_less(c, a, k),
    decreases a.len() + b.len() + c.len() - k,
{
    if k < a.len() && k < b.len() && k < c.len() {
        if a[k as int] == b[k as int] && b[k as int] == c[k as int] {
            lemma_lex_negatively_transitive(a, b, c, k + 1);
        }
    }
}

/// No entry sorts before itself, of two entries at most one sorts before the
/// other, and sorting behind is transitive: the order is a total preorder.
pub proof fn entry_order_is_total(a: FileEntry, b: FileEntry, c: FileEntry)
    ensures
        !entry_less(a, a),
        !(entry_less(a, b) && entry_less(b, a)),
        !entry_less(b, a) && !entry_less(c, b) ==> !entry_less(c, a),
{
    lemma_lex_irreflexive(sort_key(a), 0);
    lemma_lex_asymmetric(sort_key(a), sort_key(b), 0);
    if !entry_less(b, a) && !entry_less(c, b) {
        lemma_lex_negatively_transitive(sort_key(a), sort_key(b), sort_key(c), 0);
    }
}

proof fn lemma_before_transitive(fs: Seq<FileEntry>, i: int, j: int, k: int)
    requires
        sorts_before(fs, i, j),
        sorts_before(fs, j, k),
    ensures
        sorts_before(fs, i, k),
{
    entry_order_is_total(fs[i], fs[j], fs[k]);
    entry_order_is_total(fs[j], fs[k], fs[i]);
    entry_order_is_total(fs[k], fs[i], fs[j]);
    entry_order_is_total(fs[j], fs[i], fs[k]);
    entry_order_is_total(fs[k], fs[j], fs[i]);
    entry_order_is_total(fs[i], fs[k], fs[j]);
}

proof fn lemma_before_total(fs: Seq<FileEntry>, i: int, j: int)
    ensures
        i != j ==> (sorts_before(fs, i, j) <==> !sorts_before(fs, j, i)),
        !sorts_before(fs, i, i),
{
    entry_order_is_total(fs[i], fs[j], fs[i]);
    entry_order_is_total(fs[i], fs[i], fs[i]);
}

// ---------------------------------------------------------------------------
// Keys and comparison
// ---------------------------------------------------------------------------

/// A computed sort key.
pub open spec fn key_ints(k: Seq<u16>) -> Seq<int> {
    Seq::new(k.len(), |i: int| k[i] as int)
}

proof fn lemma_key_push(k: Seq<u16>, x: u16)
    ensures
        key_ints(k.push(x)) == key_ints(k).push(x as int),
{
    assert(key_ints(k.push(x)) =~= key_ints(k).push(x as int));
}

/// The sort key of an entry.
fn sort_key_of(f: &FileInfo) -> (key: Vec<u16>)
    ensures
        key_ints(key@) == sort_key(f@),
{
    let mut key: Vec<u16> = Vec::new();
    let ghost dir = dir_bytes(f@);
    match &f.dirname {
        Some(d) => {
            let bytes: &[u8] = d.as_str().as_bytes();
            let mut i: usize = 0;
            while i < bytes.len()
                invariant
                    i <= bytes@.len(),
                    bytes@ == dir,
                    key_ints(key@) == Seq::new(i as nat, |j: int| path_symbol(dir[j])),
                decreases bytes@.len() - i,
            {
                let x: u16 = bytes[i] as u16 + 257;
                proof {
                    lemma_key_push(key@, x);
                }
                key.push(x);
                i = i + 1;
                assert(key_ints(key@) =~= Seq::new(i as nat, |j: int| path_symbol(dir[j])));
            }
            if bytes.len() > 0 {
                proof {
                    lemma_key_push(key@, 0x130);
                }
                key.push(0x130);
            }
        },
        None => {},
    }
    assert(key_ints(key@) =~= dir_key(dir));
    let base: &[u8] = f.name.as_str().as_bytes();
    let is_dir: bool = f.is_dir();
    let ghost head = key_ints(key@);
    if is_dir && base.len() == 1 && base[0] == 0x2e {
        assert(key_ints(key@) =~= sort_key(f@));
        return key;
    }
    let offset: u16 = if is_dir {
        257
    } else {
        1
    };
    let mut i: usize = 0;
    assert(key_ints(key@) =~= head + Seq::new(0, |j: int| base@[j] + offset));
    while i < base.len()
        invariant
            i <= base@.len(),
            offset <= 257,
            key_ints(key@) == head + Seq::new(i as nat, |j: int| base@[j] + offset),
        decreases base@.len() - i,
    {
        let x: u16 = base[i] as u16 + offset;
        proof {
            lemma_key_push(key@, x);
        }
        key.push(x);
        i = i + 1;
        assert(key_ints(key@) =~= head + Seq::new(i as nat, |j: int| base@[j] + offset));
    }
    if is_dir {
        proof {
            lemma_key_push(key@, 0x130);
        }
        key.push(0x130);
    }
    assert(key_ints(key@) =~= sort_key(f@));
    key
}

fn key_less(a: &Vec<u16>, b: &Vec<u16>) -> (less: bool)
    ensures
        less == lex_less(key_ints(a@), key_ints(b@), 0),
{
    let ghost x = key_ints(a@);
    let ghost y = key_ints(b@);
    let mut k: usize = 0;
    while k < a.len() && k < b.len() && a[k] == b[k]
        invariant
            k <= a@.len(),
            k <= b@.len(),
            x == key_ints(a@),
            y == key_ints(b@),
            lex_less(x, y, 0) == lex_less(x, y, k as nat),
        decreases a@.len() - k,
    {
        assert(x[k as int] == y[k as int]);
        k = k + 1;
    }
    if k >= b.len() {
        false
    } else if k >= a.len() {
        true
    } else {
        assert(x[k as int] == a@[k as int] && y[k as int] == b@[k as int]);
        a[k] < b[k]
    }
}

/// Whether the file `a` sorts before the file `b`.
pub fn file_before(a: &FileInfo, b: &FileInfo) -> (less: bool)
    ensures
        less == entry_less(a@, b@),
{
    key_less(&sort_key_of(a), &sort_key_of(b))
}

// ---------------------------------------------------------------------------
// Sorting
// ---------------------------------------------------------------------------

/// Positions as mathematical integers.
pub open spec fn positions(order: Seq<usize>) -> Seq<int> {
    Seq::new(order.len(), |i: int| order[i] as int)
}

spec fn keys_match(fs: Seq<FileEntry>, keys: Seq<Vec<u16>>) -> bool {
    &&& keys.len() == fs.len()
    &&& forall|i: int| 0 <= i < fs.len() ==> key_ints((#[trigger] keys[i])@) == sort_key(fs[i])
}

/// Whether `order` lists the positions from `lo` to `hi` in sorted order.
spec fn sorts_range(fs: Seq<FileEntry>, order: Seq<usize>, lo: int, hi: int) -> bool {
    &&& order.len() == hi - lo
    &&& forall|x: usize| lo <= x < hi <==> order.contains(x)
    &&& forall|i: int, j: int|
        0 <= i < j < order.len() ==> sorts_before(
            fs,
            #[trigger] order[i] as int,
            #[trigger] order[j] as int,
        )
}

fn position_before(Ghost(fs): Ghost<Seq<FileEntry>>, keys: &Vec<Vec<u16>>, i: usize, j: usize) -> (b:
    bool)
    requires
        keys_match(fs, keys@),
        i < fs.len(),
        j < fs.len(),
    ensures
        b == sorts_before(fs, i as int, j as int),
{
    if key_less(&keys[i], &keys[j]) {
        true
    } else {
        i < j && !key_less(&keys[j], &keys[i])
    }
}

fn merge(
    Ghost(fs): Ghost<Seq<FileEntry>>,
    keys: &Vec<Vec<u16>>,
    left: Vec<usize>,
    right: Vec<usize>,
    Ghost(lo): Ghost<int>,
    Ghost(mid): Ghost<int>,
    Ghost(hi): Ghost<int>,
) -> (out: Vec<usize>)
    requires
        keys_match(fs, keys@),
        0 <= lo <= mid <= hi <= fs.len(),
        sorts_range(fs, left@, lo, mid),
        sorts_range(fs, right@, mid, hi),
    ensures
        sorts_range(fs, out@, lo, hi),
{
    let mut out: Vec<usize> = Vec::new();
    let mut i: usize = 0;
    let mut j: usize = 0;
    while i < left.len() || j < right.len()
        invariant
            keys_match(fs, keys@),
            0 <= lo <= mid <= hi <= fs.len(),
            sorts_range(fs, left@, lo, mid),
            sorts_range(fs, right@, mid, hi),
            i <= left@.len(),
            j <= right@.len(),
            out@.len() == i + j,
            forall|x: usize|
                #![trigger out@.contains(x)]
                out@.contains(x) <==> left@.take(i as int).contains(x) || right@.take(
                    j as int,
                ).contains(x),
            forall|a: int, b: int|
                0 <= a < b < out@.len() ==> sorts_before(
                    fs,
                    #[trigger] out@[a] as int,
                    #[trigger] out@[b] as int,
                ),
            forall|a: int, b: int|
                0 <= a < out@.len() && i <= b < left@.len() ==> sorts_before(
                    fs,
                    #[trigger] out@[a] as int,
                    #[trigger] left@[b] as int,
                ),
            forall|a: int, b: int|
                0 <= a < out@.len() && j <= b < right@.len() ==> sorts_before(
                    fs,
                    #[trigger] out@[a] as int,
                    #[trigger] right@[b] as int,
                ),
        decreases left@.len() - i + right@.len() - j,
    {
        let ghost before = out@;
        let take_left: bool = if i >= left.len() {
            false
        } else if j >= right.len() {
            true
        } else {
            proof {
                assert(left@.contains(left@[i as int]));
                assert(right@.contains(right@[j as int]));
            }
            position_before(Ghost(fs), keys, left[i], right[j])
        };
        if take_left {
            let x: usize = left[i];
            out.push(x);
            proof {
                assert(left@.take(i + 1) =~= left@.take(i as int).push(x));
                if j < right@.len() {
                    assert forall|b: int| j <= b < right@.len() implies sorts_before(
                        fs,
                        x as int,
                        #[trigger] right@[b] as int,
                    ) by {
                        if b > j {
                            lemma_before_transitive(
                                fs,
                                x as int,
                                right@[j as int] as int,
                                right@[b] as int,
                            );
                        }
                    }
                }
                lemma_contains_push(before, x);
                lemma_contains_push(left@.take(i as int), x);
            }
            i = i + 1;
        } else {
            let x: usize = right[j];
            out.push(x);
            proof {
                assert(right@.take(j + 1) =~= right@.take(j as int).push(x));
                if i < left@.len() {
                    assert(left@.contains(left@[i as int]));
                    assert(right@.contains(x));
                    lemma_before_total(fs, x as int, left@[i as int] as int);
                    assert forall|b: int| i <= b < left@.len() implies sorts_before(
                        fs,
                        x as int,
                        #[trigger] left@[b] as int,
                    ) by {
                        if b > i {
                            lemma_before_transitive(
                                fs,
                                x as int,
                                left@[i as int] as int,
                                left@[b] as int,
                            );
                        }
                    }
                }
                lemma_contains_push(before, x);
                lemma_contains_push(right@.take(j as int), x);
            }
            j = j + 1;
        }
    }
    proof {
        assert(left@.take(i as int) =~= left@);
        assert(right@.take(j as int) =~= right@);
    }
    out
}

proof fn lemma_contains_push(s: Seq<usize>, x: usize)
    ensures
        forall|y: usize| #![trigger s.push(x).contains(y)] s.push(x).contains(y) <==> s.contains(y) || y == x,
{
    let t = s.push(x);
    assert forall|y: usize| #![trigger t.contains(y)] t.contains(y) <==> s.contains(y) || y == x by {
        if s.contains(y) {
            let i = choose|i: int| 0 <= i < s.len() && s[i] == y;
            assert(t[i] == y);
        }
        if y == x {
            assert(t[s.len() as int] == y);
        }
        if t.contains(y) {
            let i = choose|i: int| 0 <= i < t.len() && t[i] == y;
            if i < s.len() {
                assert(s[i] == y);
            }
        }
    }
}

fn sort_range(
    Ghost(fs): Ghost<Seq<FileEntry>>,
    keys: &Vec<Vec<u16>>,
    lo: usize,
    hi: usize,
) -> (out: Vec<usize>)
    requires
        keys_match(fs, keys@),
        lo <= hi <= fs.len(),
    ensures
        sorts_range(fs, out@, lo as int, hi as int),
    decreases hi - lo,
{
    if hi - lo == 0 {
        let out: Vec<usize> = Vec::new();
        return out;
    }
    if hi - lo == 1 {
        let mut out: Vec<usize> = Vec::new();
        out.push(lo);
        proof {
            assert(out@[0] == lo);
            assert forall|x: usize| lo <= x < hi <==> out@.contains(x) by {
                if x == lo {
                    assert(out@[0] == x);
                }
            }
        }
        return out;
    }
    let mid: usize = lo + (hi - lo) / 2;
    let left: Vec<usize> = sort_range(Ghost(fs), keys, lo, mid);
    let right: Vec<usize> = sort_range(Ghost(fs), keys, mid, hi);
    merge(Ghost(fs), keys, left, right, Ghost(lo as int), Ghost(mid as int), Ghost(hi as int))
}

/// The positions of some files in sorted order.
pub fn sort_order_of(files: &Vec<FileInfo>) -> (order: Vec<usize>)
    ensures
        is_sort_order(entries(files@), positions(order@)),
        forall|i: int| 0 <= i < order@.len() ==> (#[trigger] order@[i]) < files@.len(),
{
    let ghost fs = entries(files@);
    let mut keys: Vec<Vec<u16>> = Vec::new();
    let mut i: usize = 0;
    while i < files.len()
        invariant
            i <= files@.len(),
            fs == entries(files@),
            keys@.len() == i,
            forall|j: int| 0 <= j < i ==> key_ints((#[trigger] keys@[j])@) == sort_key(fs[j]),
        decreases files@.len() - i,
    {
        keys.push(sort_key_of(&files[i]));
        i = i + 1;
    }
    let order: Vec<usize> = sort_range(Ghost(fs), &keys, 0, files.len());
    proof {
        let p = positions(order@);
        assert forall|k: int| 0 <= k < fs.len() <==> p.contains(k) by {
            if 0 <= k < fs.len() {
                assert(k <= usize::MAX) by {
                    assert(fs.len() == files.len());
                }
                assert(order@.contains(k as usize));
                let a = choose|a: int| 0 <= a < order@.len() && order@[a] == k as usize;
                assert(p[a] == k);
            }
            if p.contains(k) {
                let a = choose|a: int| 0 <= a < p.len() && p[a] == k;
                assert(order@.contains(order@[a]));
            }
        }
        assert forall|a: int| 0 <= a < order@.len() implies (#[trigger] order@[a]) < files@.len() by {
            assert(order@.contains(order@[a]));
        }
    }
    order
}

/// The entries of `fs` in the order `order`.
pub open spec fn arranged(fs: Seq<FileEntry>, order: Seq<int>) -> Seq<FileEntry> {
    Seq::new(order.len(), |i: int| fs[order[i]])
}

/// Copies of some files in a given order.
pub(crate) fn arrange(files: &Vec<FileInfo>, order: &Vec<usize>) -> (out: Vec<FileInfo>)
    requires
        forall|i: int| 0 <= i < order@.len() ==> (#[trigger] order@[i]) < files@.len(),
    ensures
        entries(out@) == arranged(entries(files@), positions(order@)),
        out@.len() == order@.len(),
{
    let mut out: Vec<FileInfo> = Vec::new();
    let mut i: usize = 0;
    while i < order.len()
        invariant
            i <= order@.len(),
            out@.len() == i,
            forall|k: int| 0 <= k < order@.len() ==> (#[trigger] order@[k]) < files@.len(),
            forall|k: int| 0 <= k < i ==> (#[trigger] out@[k])@ == files@[order@[k] as int]@,
        decreases order@.len() - i,
    {
        out.push(files[order[i]].clone());
        i = i + 1;
    }
    assert(entries(out@) =~= arranged(entries(files@), positions(order@)));
    out
}

/// The numbers below `n`, in order.
pub open spec fn counting(n: nat) -> Seq<usize> {
    Seq::new(n, |i: int| i as usize)
}

/// The numbers below `n`, in order.
pub(crate) fn count_up(n: usize) -> (out: Vec<usize>)
    ensures
        out@ == counting(n as nat),
{
    let mut out: Vec<usize> = Vec::new();
    let mut i: usize = 0;
    while i < n
        invariant
            i <= n,
            out@ == counting(i as nat),
        decreases n - i,
    {
        out.push(i);
        i = i + 1;
        assert(out@ =~= counting(i as nat));
    }
    out
}

/// Puts the files of a list in sorted order, so that protocol index `i` is
/// that of `files[i]`.  Files that sort alike keep their order.
pub fn flist_sort(flist: &mut FileList)
    ensures
        exists|order: Seq<int>|
            {
                &&& #[trigger] is_sort_order(entries(old(flist).files@), order)
                &&& entries(final(flist).files@) == arranged(entries(old(flist).files@), order)
            },
        final(flist).sorted@ == counting(old(flist).files@.len()),
        final(flist).wf(),
        final(flist).ndx_start == old(flist).ndx_start,
        final(flist).flist_num == old(flist).flist_num,
        final(flist).parent_ndx == old(flist).parent_ndx,
        final(flist).in_progress == old(flist).in_progress,
        final(flist).to_redo == old(flist).to_redo,
{
    let order: Vec<usize> = sort_order_of(&flist.files);
    assert(positions(order@).len() == order@.len());
    let sorted: Vec<FileInfo> = arrange(&flist.files, &order);
    flist.files = sorted;
    flist.sorted = count_up(flist.files.len());
}

// ---------------------------------------------------------------------------
// Laws
// ---------------------------------------------------------------------------

/// Sorting leaves no entry behind one that sorts before it.
pub proof fn sorting_sorts(fs: Seq<FileEntry>, order: Seq<int>)
    requires
        is_sort_order(fs, order),
    ensures
        is_sorted(arranged(fs, order)),
{
    let g = arranged(fs, order);
    assert forall|i: int, j: int| 0 <= i < j < g.len() implies !entry_less(
        #[trigger] g[j],
        #[trigger] g[i],
    ) by {
        assert(sorts_before(fs, order[i], order[j]));
        entry_order_is_total(fs[order[i]], fs[order[j]], fs[order[i]]);
    }
}

/// A list has one sorted order only.
pub proof fn sort_order_is_unique(fs: Seq<FileEntry>, a: Seq<int>, b: Seq<int>)
    requires
        is_sort_order(fs, a),
        is_sort_order(fs, b),
    ensures
        a == b,
{
    assert forall|k: int| 0 <= k < a.len() implies #[trigger] a[k] == b[k] by {
        lemma_same_position(fs, a, b, k);
    }
    assert(a =~= b);
}

proof fn lemma_same_position(fs: Seq<FileEntry>, a: Seq<int>, b: Seq<int>, k: int)
    requires
        is_sort_order(fs, a),
        is_sort_order(fs, b),
        0 <= k < a.len(),
    ensures
        a[k] == b[k],
    decreases k,
{
    assert forall|i: int| 0 <= i < k implies #[trigger] a[i] == b[i] by {
        lemma_same_position(fs, a, b, i);
    }
    if a[k] != b[k] {
        assert(b.contains(b[k]));
        assert(a.contains(b[k]));
        let i = choose|i: int| 0 <= i < a.len() && a[i] == b[k];
        assert(a.contains(a[k]));
        assert(b.contains(a[k]));
        let j = choose|j: int| 0 <= j < b.len() && b[j] == a[k];
        lemma_before_total(fs, b[k], b[k]);
        lemma_before_total(fs, a[k], a[k]);
        if i < k {
            assert(a[i] == b[i]);
            assert(sorts_before(fs, b[i], b[k]));
        }
        if j < k {
            assert(a[j] == b[j]);
            assert(sorts_before(fs, a[j], a[k]));
        }
        assert(sorts_before(fs, a[k], a[i]));
        assert(sorts_before(fs, b[k], b[j]));
        lemma_before_total(fs, a[k], b[k]);
    }
}

/// A sorted order names every position once.
pub proof fn sort_order_is_injective(fs: Seq<FileEntry>, order: Seq<int>, i: int, j: int)
    requires
        is_sort_order(fs, order),
        0 <= i < j < order.len(),
    ensures
        order[i] != order[j],
{
    assert(sorts_before(fs, order[i], order[j]));
    lemma_before_total(fs, order[i], order[i]);
}

/// Sorting a sorted list changes nothing.
pub proof fn sorting_a_sorted_list(fs: Seq<FileEntry>, order: Seq<int>)
    requires
        is_sorted(fs),
        is_sort_order(fs, order),
    ensures
        order == Seq::new(fs.len(), |i: int| i),
        arranged(fs, order) == fs,
{
    let id = Seq::new(fs.len(), |i: int| i);
    assert(is_sort_order(fs, id)) by {
        assert forall|k: int| 0 <= k < fs.len() <==> id.contains(k) by {
            if 0 <= k < fs.len() {
                assert(id[k] == k);
            }
        }
    }
    sort_order_is_unique(fs, order, id);
    assert(arranged(fs, order) =~= fs);
}

/// A directory sorts before everything directly in it.
pub proof fn directory_before_contents(dir: FileEntry, f: FileEntry)
    requires
        dir.file_type() == FileType::Dir,
        !is_dot(encode_utf8(dir.name)),
        f.dirname == Some(dir.path()),
        dir.path().len() > 0,
        !(f.file_type() == FileType::Dir && is_dot(encode_utf8(f.name))),
        f.name.len() > 0,
    ensures
        entry_less(dir, f),
{
    let d = dir_bytes(dir);
    let base = encode_utf8(dir.name);
    let whole = encode_utf8(dir.path());
    let kd = sort_key(dir);
    let kf = sort_key(f);
    lemma_encode_len(dir.path());
    lemma_encode_len(f.name);
    assert(kd =~= dir_key(whole)) by {
        match dir.dirname {
            Some(dn) => {
                lemma_encode_len(dn);
                if dn.len() > 0 {
                    lemma_encode_concat(dn + seq!['/'], dir.name);
                    lemma_encode_concat(dn, seq!['/']);
                    lemma_encode_slash();
                    assert(whole =~= d + seq![0x2fu8] + base);
                }
            },
            None => {},
        }
    }
    assert(kf.take(kd.len() as int) =~= kd);
    assert(kf.len() > kd.len());
    lemma_prefix_less(kd, kf, 0);
}

proof fn lemma_prefix_less(a: Seq<int>, b: Seq<int>, k: nat)
    requires
        a.len() < b.len(),
        b.take(a.len() as int) == a,
        k <= a.len(),
    ensures
        lex_less(a, b, k),
    decreases a.len() - k,
{
    if k < a.len() {
        assert(a[k as int] == b[k as int]) by {
            assert(b.take(a.len() as int)[k as int] == b[k as int]);
        }
        lemma_prefix_less(a, b, k + 1);
    }
}

/// In one directory the plain files sort before the subdirectories.
pub proof fn files_before_subdirectories(file: FileEntry, sub: FileEntry)
    requires
        file.dirname == sub.dirname,
        file.file_type() != FileType::Dir,
        sub.file_type() == FileType::Dir,
        !is_dot(encode_utf8(sub.name)),
    ensures
        entry_less(file, sub),
{
    let d = dir_key(dir_bytes(file));
    let a = sort_key(file);
    let b = sort_key(sub);
    assert(a.take(d.len() as int) =~= d);
    assert(b.take(d.len() as int) =~= d);
    lemma_shared_prefix(d, a, b, 0);
    if encode_utf8(file.name).len() > 0 {
        assert(a[d.len() as int] <= 256);
    }
    assert(b[d.len() as int] >= 257);
}

proof fn lemma_shared_prefix(d: Seq<int>, a: Seq<int>, b: Seq<int>, k: nat)
    requires
        k <= d.len() <= a.len(),
        d.len() <= b.len(),
        a.take(d.len() as int) == d,
        b.take(d.len() as int) == d,
    ensures
        lex_less(a, b, k) == lex_less(a, b, d.len()),
    decreases d.len() - k,
{
    if k < d.len() {
        assert(a.take(d.len() as int)[k as int] == a[k as int]);
        assert(b.take(d.len() as int)[k as int] == b[k as int]);
        lemma_shared_prefix(d, a, b, k + 1);
    }
}

/// Whether the last component of an entry's path is a name: not empty, without
/// a slash, and not the dot that stands for the directory itself.
pub open spec fn has_name(f: FileEntry) -> bool {
    f.name.len() > 0 && !f.name.contains('/') && f.name != seq!['.']
}

/// The directory of an entry, empty at the top level.
spec fn dir_text(f: FileEntry) -> Seq<char> {
    match f.dirname {
        Some(d) => d,
        None => Seq::empty(),
    }
}

proof fn lemma_encode_injective(a: Seq<char>, b: Seq<char>)
    requires
        encode_utf8(a) == encode_utf8(b),
    ensures
        a == b,
{
    encode_utf8_decode_utf8(a);
    encode_utf8_decode_utf8(b);
}

proof fn lemma_not_dot(name: Seq<char>)
    requires
        name != seq!['.'],
    ensures
        !is_dot(encode_utf8(name)),
{
    let dot = seq!['.'];
    is_ascii_chars_encode_utf8(dot);
    if is_dot(encode_utf8(name)) {
        assert(encode_utf8(name) =~= encode_utf8(dot));
        lemma_encode_injective(name, dot);
    }
}

proof fn lemma_dir_bytes(f: FileEntry)
    ensures
        dir_bytes(f) == encode_utf8(dir_text(f)),
        dir_bytes(f).len() == 0 <==> dir_text(f).len() == 0,
        dir_text(f).len() == 0 ==> f.path() == f.name,
        dir_text(f).len() > 0 ==> f.path() == dir_text(f) + seq!['/'] + f.name,
{
    lemma_encode_len(dir_text(f));
    if dir_text(f).len() == 0 {
        assert(encode_utf8(dir_text(f)) =~= Seq::<u8>::empty());
    }
}

/// The sort key of a directory is that of its path.
proof fn lemma_directory_key(f: FileEntry)
    requires
        f.file_type() == FileType::Dir,
        has_name(f),
    ensures
        sort_key(f) == dir_key(encode_utf8(f.path())),
        encode_utf8(f.path()).len() > 0,
{
    let d = dir_text(f);
    lemma_dir_bytes(f);
    lemma_not_dot(f.name);
    lemma_encode_len(f.path());
    if d.len() > 0 {
        lemma_encode_concat(d + seq!['/'], f.name);
        lemma_encode_concat(d, seq!['/']);
        lemma_encode_slash();
        assert(encode_utf8(f.path()) =~= dir_bytes(f) + seq![0x2fu8] + encode_utf8(f.name));
    }
    assert(sort_key(f) =~= dir_key(encode_utf8(f.path())));
}

/// A directory sorts before everything below it, however deep.
pub proof fn directory_before_all_below(dir: FileEntry, f: FileEntry)
    requires
        dir.file_type() == FileType::Dir,
        has_name(dir),
        has_name(f),
        begins_with(f.path(), dir.path() + seq!['/']),
    ensures
        entry_less(dir, f),
{
    let p = dir.path();
    let q = p + seq!['/'];
    let d = dir_text(f);
    let n = p.len() as int;
    lemma_dir_bytes(f);
    lemma_directory_key(dir);
    assert(f.path().take(q.len() as int)[n] == '/');
    assert(f.path()[n] == '/');
    if d.len() == 0 {
        assert(f.name[n] == '/');
        assert(false);
    }
    if n > d.len() {
        assert(f.name[n - d.len() - 1] == '/');
        assert(false);
    }
    let rest = d.skip(n);
    assert(d.take(n) =~= p) by {
        assert forall|i: int| 0 <= i < n implies d[i] == p[i] by {
            assert(f.path().take(q.len() as int)[i] == q[i]);
        }
    }
    assert(d =~= p + rest);
    lemma_encode_concat(p, rest);
    let whole = encode_utf8(p);
    let kd = sort_key(dir);
    let kf = sort_key(f);
    if rest.len() > 0 {
        assert(rest[0] == '/');
        assert(rest =~= seq!['/'] + rest.skip(1));
        lemma_encode_concat(seq!['/'], rest.skip(1));
        lemma_encode_slash();
        assert(encode_utf8(rest)[0] == 0x2f);
        assert(dir_bytes(f)[whole.len() as int] == 0x2f);
    } else {
        assert(encode_utf8(rest) =~= Seq::<u8>::empty());
    }
    assert(kf.take(kd.len() as int) =~= kd);
    lemma_encode_len(f.name);
    lemma_not_dot(f.name);
    assert(kf.len() > kd.len());
    lemma_prefix_less(kd, kf, 0);
}

proof fn lemma_lex_equal(a: Seq<int>, b: Seq<int>, k: nat)
    requires
        k <= a.len(),
        k <= b.len(),
        a.take(k as int) == b.take(k as int),
        !lex_less(a, b, k),
        !lex_less(b, a, k),
    ensures
        a == b,
    decreases a.len() - k,
{
    if k < a.len() && k < b.len() {
        assert(a.take((k + 1) as int) =~= a.take(k as int).push(a[k as int]));
        assert(b.take((k + 1) as int) =~= b.take(k as int).push(b[k as int]));
        lemma_lex_equal(a, b, k + 1);
    } else {
        assert(a =~= a.take(k as int));
        assert(b =~= b.take(k as int));
    }
}

proof fn lemma_dir_key_injective(a: Seq<u8>, b: Seq<u8>)
    requires
        dir_key(a) == dir_key(b),
    ensures
        a == b,
{
    let ka = dir_key(a);
    let kb = dir_key(b);
    assert(a.len() > 0 ==> ka.len() == a.len() + 1);
    assert(b.len() > 0 ==> kb.len() == b.len() + 1);
    if a.len() > 0 && b.len() > 0 {
        assert(a.len() == b.len());
        assert forall|i: int| 0 <= i < a.len() implies a[i] == b[i] by {
            assert(ka[i] == path_symbol(a[i]));
            assert(kb[i] == path_symbol(b[i]));
        }
        assert(a =~= b);
    } else {
        assert(a =~= b);
    }
}

/// The symbols of a plain file's key: those of its directory, then those of its
/// name.
proof fn lemma_file_key(f: FileEntry)
    requires
        f.file_type() != FileType::Dir,
        has_name(f),
    ensures
        ({
            let d = dir_key(dir_bytes(f));
            let base = encode_utf8(f.name);
            let k = sort_key(f);
            &&& base.len() > 0
            &&& k.len() == d.len() + base.len()
            &&& forall|i: int| 0 <= i < d.len() ==> #[trigger] k[i] == d[i] && k[i] >= 257
            &&& forall|i: int|
                d.len() <= i < k.len() ==> #[trigger] k[i] == item_symbol(base[i - d.len()])
        }),
{
    lemma_encode_len(f.name);
}

/// Behind its directory a path has no slash but the one that follows.
proof fn lemma_no_later_slash(f: FileEntry, i: int)
    requires
        has_name(f),
    ensures
        dir_text(f).len() > 0 ==> dir_text(f).len() < f.path().len() && f.path()[dir_text(
            f,
        ).len() as int] == '/',
        dir_text(f).len() < i < f.path().len() ==> f.path()[i] != '/',
        dir_text(f).len() == 0 && 0 <= i < f.path().len() ==> f.path()[i] != '/',
{
    lemma_dir_bytes(f);
    let d = dir_text(f);
    let p = f.path();
    if d.len() > 0 {
        assert(p == d + seq!['/'] + f.name);
        assert(p[d.len() as int] == '/');
        if d.len() < i < p.len() {
            assert(p[i] == f.name[i - d.len() - 1]);
            assert(f.name.contains(f.name[i - d.len() - 1]));
        }
    } else if 0 <= i < p.len() {
        assert(f.name.contains(f.name[i]));
    }
}

proof fn lemma_same_split(a: FileEntry, b: FileEntry)
    requires
        has_name(a),
        has_name(b),
        a.path() == b.path(),
    ensures
        a.name == b.name,
        dir_text(a) == dir_text(b),
{
    lemma_dir_bytes(a);
    lemma_dir_bytes(b);
    let p = a.path();
    let da = dir_text(a);
    let db = dir_text(b);
    lemma_no_later_slash(a, db.len() as int);
    lemma_no_later_slash(b, da.len() as int);
    assert(da.len() == db.len());
    if da.len() > 0 {
        assert(da =~= p.take(da.len() as int));
        assert(db =~= p.take(db.len() as int));
        assert(a.name =~= p.skip((da.len() + 1) as int));
        assert(b.name =~= p.skip((db.len() + 1) as int));
    } else {
        assert(da =~= db);
    }
}

proof fn lemma_same_file_key(a: FileEntry, b: FileEntry)
    requires
        has_name(a),
        has_name(b),
        a.file_type() != FileType::Dir,
        b.file_type() != FileType::Dir,
        sort_key(a) == sort_key(b),
    ensures
        a.path() == b.path(),
{
    lemma_file_key(a);
    lemma_file_key(b);
    lemma_dir_bytes(a);
    lemma_dir_bytes(b);
    let k = sort_key(a);
    let (ka, kb) = (dir_key(dir_bytes(a)), dir_key(dir_bytes(b)));
    let (na, nb) = (encode_utf8(a.name), encode_utf8(b.name));
    if ka.len() < kb.len() {
        assert(k[ka.len() as int] == item_symbol(na[0]));
        assert(k[ka.len() as int] >= 257);
    } else if kb.len() < ka.len() {
        assert(k[kb.len() as int] == item_symbol(nb[0]));
        assert(k[kb.len() as int] >= 257);
    }
    assert(ka =~= kb) by {
        assert forall|i: int| 0 <= i < ka.len() implies ka[i] == kb[i] by {
            assert(k[i] == ka[i]);
            assert(k[i] == kb[i]);
        }
    }
    lemma_dir_key_injective(dir_bytes(a), dir_bytes(b));
    assert(na =~= nb) by {
        assert forall|i: int| 0 <= i < na.len() implies na[i] == nb[i] by {
            assert(k[ka.len() + i] == item_symbol(na[i]));
            assert(k[ka.len() + i] == item_symbol(nb[i]));
        }
    }
    lemma_encode_injective(a.name, b.name);
    lemma_encode_injective(dir_text(a), dir_text(b));
}

/// Two entries sort alike exactly where they have the same path, and both or
/// neither are directories.
pub proof fn only_the_same_sort_alike(a: FileEntry, b: FileEntry)
    requires
        has_name(a),
        has_name(b),
    ensures
        (!entry_less(a, b) && !entry_less(b, a)) <==> (a.path() == b.path() && (a.file_type()
            == FileType::Dir) == (b.file_type() == FileType::Dir)),
{
    let (ka, kb) = (sort_key(a), sort_key(b));
    let a_dir = a.file_type() == FileType::Dir;
    let b_dir = b.file_type() == FileType::Dir;
    if a_dir {
        lemma_directory_key(a);
        assert(ka.last() >= 257);
    } else {
        lemma_file_key(a);
        assert(ka.last() <= 256);
    }
    if b_dir {
        lemma_directory_key(b);
        assert(kb.last() >= 257);
    } else {
        lemma_file_key(b);
        assert(kb.last() <= 256);
    }
    if !entry_less(a, b) && !entry_less(b, a) {
        assert(ka.take(0) =~= kb.take(0));
        lemma_lex_equal(ka, kb, 0);
        if a_dir {
            lemma_dir_key_injective(encode_utf8(a.path()), encode_utf8(b.path()));
            lemma_encode_injective(a.path(), b.path());
        } else {
            lemma_same_file_key(a, b);
        }
    }
    if a.path() == b.path() && a_dir == b_dir {
        if !a_dir {
            lemma_same_split(a, b);
            lemma_dir_bytes(a);
            lemma_dir_bytes(b);
        }
        assert(ka == kb);
        lemma_lex_irreflexive(ka, 0);
    }
}

} // verus!
