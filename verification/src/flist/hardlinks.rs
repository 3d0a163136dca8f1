//! Finding the hard links within a file list.

use std::collections::HashMap;

use vstd::prelude::*;

use crate::protocol::constants::{FLAG_HLINKED, FLAG_HLINK_FIRST};
use crate::protocol::types::{entries, FileEntry, FileInfo, FileList, FileType};

verus! {

broadcast use vstd::std_specs::hash::group_hash_axioms;

/// What two names of one file have in common: the device and the inode.
/// Only regular files with an inode take part.
pub open spec fn link_key(f: FileEntry) -> Option<(u64, u64)> {
    if f.file_type() == FileType::Regular && f.ino != 0 {
        Some((f.dev, f.ino))
    } else {
        None
    }
}

/// The first place of a file among some, from place `k` on.
pub open spec fn first_with(fs: Seq<FileEntry>, key: (u64, u64), k: nat) -> Option<int>
    decreases fs.len() - k,
{
    if k >= fs.len() {
        None
    } else if link_key(fs[k as int]) == Some(key) {
        Some(k as int)
    } else {
        first_with(fs, key, k + 1)
    }
}

/// Whether the file at place `w` has another name between it and place `m`.
pub open spec fn named_again(fs: Seq<FileEntry>, w: int, m: int) -> bool {
    exists|v: int| w < v < m && link_key(#[trigger] fs[v]) == link_key(fs[w])
}

/// The entry at place `w`, marked as the names up to place `m` have it: the
/// first of several names of a file as the first, and every other with the
/// index of the first.
pub open spec fn marked(fs: Seq<FileEntry>, ndx_start: i32, w: int, m: int) -> FileEntry {
    let f = fs[w];
    match link_key(f) {
        None => f,
        Some(key) => match first_with(fs, key, 0) {
            Some(first) if first < w && w < m => FileEntry {
                flags: f.flags | FLAG_HLINKED,
                hard_link_first_ndx: (ndx_start + first) as i32,
                ..f
            },
            _ => if named_again(fs, w, m) {
                FileEntry { flags: f.flags | (FLAG_HLINKED | FLAG_HLINK_FIRST), ..f }
            } else {
                f
            },
        },
    }
}

/// The entries of a list in the order in which they are sent.
pub open spec fn wire_order(l: FileList) -> Seq<FileEntry> {
    Seq::new(l.sorted@.len(), |w: int| l.files@[l.sorted@[w] as int]@)
}

/// Whether the order of a list names every file at most once.
pub open spec fn order_is_distinct(l: FileList) -> bool {
    forall|i: int, j: int|
        0 <= i < j < l.sorted@.len() ==> #[trigger] l.sorted@[i] != #[trigger] l.sorted@[j]
}

proof fn lemma_first_with(fs: Seq<FileEntry>, key: (u64, u64), k: nat)
    ensures
        match first_with(fs, key, k) {
            Some(i) => k <= i < fs.len() && link_key(fs[i]) == Some(key) && forall|j: int|
                k <= j < i ==> link_key(#[trigger] fs[j]) != Some(key),
            None => forall|j: int| k <= j < fs.len() ==> link_key(#[trigger] fs[j]) != Some(key),
        },
    decreases fs.len() - k,
{
    if k < fs.len() && link_key(fs[k as int]) != Some(key) {
        lemma_first_with(fs, key, k + 1);
    }
}

spec fn key_number(key: (u64, u64)) -> u128 {
    (key.0 * 0x1_0000_0000_0000_0000 + key.1) as u128
}

fn key_of(f: &FileInfo) -> (k: Option<u128>)
    ensures
        match k {
            Some(n) => link_key(f@) matches Some(key) && n == key_number(key),
            None => link_key(f@) == None::<(u64, u64)>,
        },
{
    if f.is_regular() && f.ino != 0 {
        Some(f.dev as u128 * 0x1_0000_0000_0000_0000 + f.ino as u128)
    } else {
        None
    }
}

/// Whether the map holds the first place of every file among the first `m`.
spec fn knows_firsts(map: Map<u128, usize>, fs: Seq<FileEntry>, m: int) -> bool {
    &&& forall|v: int|
        0 <= v < m ==> (link_key(#[trigger] fs[v]) matches Some(key) ==> map.dom().contains(
            key_number(key),
        ))
    &&& forall|n: u128| #[trigger]
        map.dom().contains(n) ==> {
            &&& map[n] < m
            &&& link_key(fs[map[n] as int]) matches Some(key) && n == key_number(key) && first_with(
                fs,
                key,
                0,
            ) == Some(map[n] as int)
        }
}

fn mark_first(files: &mut Vec<FileInfo>, i: usize)
    requires
        i < old(files)@.len(),
    ensures
        final(files)@.len() == old(files)@.len(),
        entries(final(files)@) == entries(old(files)@).update(
            i as int,
            FileEntry {
                flags: entries(old(files)@)[i as int].flags | (FLAG_HLINKED | FLAG_HLINK_FIRST),
                ..entries(old(files)@)[i as int]
            },
        ),
{
    let mut f: FileInfo = files[i].clone();
    f.flags = files[i].flags | (FLAG_HLINKED | FLAG_HLINK_FIRST);
    files.set(i, f);
    assert(entries(files@) =~= entries(old(files)@).update(i as int, f@));
}

fn mark_other(files: &mut Vec<FileInfo>, i: usize, first: i32)
    requires
        i < old(files)@.len(),
    ensures
        final(files)@.len() == old(files)@.len(),
        entries(final(files)@) == entries(old(files)@).update(
            i as int,
            FileEntry {
                flags: entries(old(files)@)[i as int].flags | FLAG_HLINKED,
                hard_link_first_ndx: first,
                ..entries(old(files)@)[i as int]
            },
        ),
{
    let mut f: FileInfo = files[i].clone();
    f.flags = files[i].flags | FLAG_HLINKED;
    f.hard_link_first_ndx = first;
    files.set(i, f);
    assert(entries(files@) =~= entries(old(files)@).update(i as int, f@));
}

proof fn lemma_mark_again(x: u16)
    ensures
        (x | (FLAG_HLINKED | FLAG_HLINK_FIRST)) | (FLAG_HLINKED | FLAG_HLINK_FIRST) == x | (
        FLAG_HLINKED | FLAG_HLINK_FIRST),
{
    assert((x | (0x20u16 | 0x40u16)) | (0x20u16 | 0x40u16) == x | (0x20u16 | 0x40u16))
        by (bit_vector);
}

/// Marks the names of files that have several, once the list is in order.
pub fn mark_hardlinks(flist: &mut FileList, hard_links: bool)
    requires
        old(flist).wf(),
        order_is_distinct(*old(flist)),
        old(flist).ndx_start + old(flist).sorted@.len() <= i32::MAX,
    ensures
        final(flist).sorted == old(flist).sorted,
        final(flist).ndx_start == old(flist).ndx_start,
        final(flist).flist_num == old(flist).flist_num,
        final(flist).parent_ndx == old(flist).parent_ndx,
        final(flist).in_progress == old(flist).in_progress,
        final(flist).to_redo == old(flist).to_redo,
        final(flist).files@.len() == old(flist).files@.len(),
        !hard_links ==> *final(flist) == *old(flist),
        hard_links ==> wire_order(*final(flist)) == Seq::new(
            old(flist).sorted@.len(),
            |w: int|
                marked(
                    wire_order(*old(flist)),
                    old(flist).ndx_start,
                    w,
                    old(flist).sorted@.len() as int,
                ),
        ),
        forall|i: int|
            0 <= i < old(flist).files@.len() && (forall|w: int|
                0 <= w < old(flist).sorted@.len() ==> #[trigger] old(flist).sorted@[w] != i)
                ==> #[trigger] final(flist).files@[i]@ == old(flist).files@[i]@,
{
    if !hard_links {
        return;
    }
    let ghost fs = wire_order(*flist);
    let ghost n = flist.sorted@.len() as int;
    let ghost start = entries(flist.files@);
    let ghost order = flist.sorted@;
    let mut firsts: HashMap<u128, usize> = HashMap::new();
    let mut w: usize = 0;
    proof {
        assert forall|v: int| 0 <= v < n implies #[trigger] fs[v] == marked(
            fs,
            flist.ndx_start,
            v,
            0,
        ) by {
            match link_key(fs[v]) {
                Some(key) => {
                    lemma_first_with(fs, key, 0);
                },
                None => {},
            }
        }
    }
    while w < flist.sorted.len()
        invariant
            w <= n,
            n == order.len(),
            flist.sorted@ == order,
            flist.sorted == old(flist).sorted,
            flist.ndx_start == old(flist).ndx_start,
            flist.flist_num == old(flist).flist_num,
            flist.parent_ndx == old(flist).parent_ndx,
            flist.in_progress == old(flist).in_progress,
            flist.to_redo == old(flist).to_redo,
            flist.ndx_start + n <= i32::MAX,
            fs.len() == n,
            forall|i: int| 0 <= i < n ==> #[trigger] order[i] < start.len(),
            forall|i: int, j: int| 0 <= i < j < n ==> #[trigger] order[i] != #[trigger] order[j],
            forall|v: int| 0 <= v < n ==> #[trigger] fs[v] == start[order[v] as int],
            flist.files@.len() == start.len(),
            forall|v: int|
                0 <= v < n ==> entries(flist.files@)[#[trigger] order[v] as int] == marked(
                    fs,
                    flist.ndx_start,
                    v,
                    w as int,
                ),
            forall|i: int|
                0 <= i < start.len() && (forall|v: int| 0 <= v < n ==> #[trigger] order[v] != i)
                    ==> #[trigger] entries(flist.files@)[i] == start[i],
            knows_firsts(firsts@, fs, w as int),
        decreases n - w,
    {
        let idx: usize = flist.sorted[w];
        let ghost before = entries(flist.files@);
        let ghost known = firsts@;
        assert(idx == order[w as int]);
        assert(fs[w as int] == start[idx as int]);
        proof {
            match link_key(fs[w as int]) {
                Some(key) => {
                    lemma_first_with(fs, key, 0);
                },
                None => {},
            }
            assert(before[idx as int] == fs[w as int]);
        }
        match key_of(&flist.files[idx]) {
            None => {
                proof {
                    lemma_step_same(fs, flist.ndx_start, w as int, n);
                }
            },
            Some(k) => {
                let ghost key = link_key(fs[w as int])->0;
                match firsts.get(&k) {
                    None => {
                        proof {
                            assert forall|v: int| 0 <= v < w implies link_key(#[trigger] fs[v])
                                != Some(key) by {
                                if link_key(fs[v]) == Some(key) {
                                    assert(known.dom().contains(key_number(key)));
                                }
                            }
                            assert(first_with(fs, key, 0) == Some(w as int));
                            lemma_step_new(fs, flist.ndx_start, w as int, n, key);
                        }
                        firsts.insert(k, w);
                        proof {
                            assert forall|m: u128| #[trigger]
                                firsts@.dom().contains(m) implies {
                                &&& firsts@[m] < w + 1
                                &&& link_key(fs[firsts@[m] as int]) matches Some(q) && m
                                    == key_number(q) && first_with(fs, q, 0) == Some(
                                    firsts@[m] as int,
                                )
                            } by {
                                if m != k {
                                    assert(known.dom().contains(m));
                                }
                            }
                        }
                    },
                    Some(f) => {
                        let first: usize = *f;
                        proof {
                            assert(known.dom().contains(k));
                            assert(first_with(fs, key, 0) == Some(first as int)) by {
                                let q = link_key(fs[first as int])->0;
                                assert(key_number(q) == key_number(key));
                                assert(q == key);
                            }
                        }
                        let lead: usize = flist.sorted[first];
                        assert(lead == order[first as int]);
                        let ghost led = before[lead as int];
                        mark_first(&mut flist.files, lead);
                        let ghost middle = entries(flist.files@);
                        let leader: i32 = (flist.ndx_start as i64 + first as i64) as i32;
                        mark_other(&mut flist.files, idx, leader);
                        proof {
                            lemma_step_other(fs, flist.ndx_start, w as int, n, first as int, key);
                            lemma_mark_again(fs[first as int].flags);
                            let after = entries(flist.files@);
                            assert(order[first as int] != order[w as int]);
                            assert(middle[idx as int] == before[idx as int]);
                            assert(led == marked(fs, flist.ndx_start, first as int, w as int));
                            assert(after[idx as int] == marked(fs, flist.ndx_start, w as int, w + 1));
                            assert(middle[lead as int] == marked(
                                fs,
                                flist.ndx_start,
                                first as int,
                                w + 1,
                            ));
                            assert forall|v: int| 0 <= v < n implies after[#[trigger] order[v] as int]
                                == marked(fs, flist.ndx_start, v, w + 1) by {
                                if v == w {
                                } else if v == first {
                                    assert(order[v] != order[w as int]);
                                    assert(after[lead as int] == middle[lead as int]);
                                } else {
                                    assert(order[v] != order[w as int]);
                                    assert(order[v] != order[first as int]);
                                    assert(after[order[v] as int] == before[order[v] as int]);
                                }
                            }
                        }
                    },
                }
            },
        }
        w = w + 1;
    }
    proof {
        let done = wire_order(*flist);
        let want = Seq::new(n as nat, |v: int| marked(fs, flist.ndx_start, v, n));
        assert forall|v: int| 0 <= v < n implies done[v] == want[v] by {
            assert(entries(flist.files@)[order[v] as int] == done[v]);
        }
        assert(done =~= want);
        assert forall|i: int|
            0 <= i < start.len() && (forall|v: int|
                0 <= v < n ==> #[trigger] old(flist).sorted@[v] != i) implies #[trigger] flist.files@[i]@
            == old(flist).files@[i]@ by {
            assert(forall|v: int| 0 <= v < n ==> #[trigger] order[v] != i);
            assert(entries(flist.files@)[i] == start[i]);
        }
    }
}

proof fn lemma_step_same(fs: Seq<FileEntry>, ndx_start: i32, w: int, n: int)
    requires
        0 <= w < n == fs.len(),
        link_key(fs[w]) is None,
    ensures
        forall|v: int| 0 <= v < n ==> #[trigger] marked(fs, ndx_start, v, w) == marked(
            fs,
            ndx_start,
            v,
            w + 1,
        ),
{
    assert forall|v: int| 0 <= v < n implies #[trigger] marked(fs, ndx_start, v, w) == marked(
        fs,
        ndx_start,
        v,
        w + 1,
    ) by {
        lemma_named_again(fs, v, w);
    }
}

proof fn lemma_named_again(fs: Seq<FileEntry>, v: int, w: int)
    ensures
        named_again(fs, v, w + 1) == (named_again(fs, v, w) || (v < w && link_key(fs[w])
            == link_key(fs[v]))),
{
    if named_again(fs, v, w) {
        let u = choose|u: int| v < u < w && link_key(#[trigger] fs[u]) == link_key(fs[v]);
        assert(v < u < w + 1);
    }
    if named_again(fs, v, w + 1) {
        let u = choose|u: int| v < u < w + 1 && link_key(#[trigger] fs[u]) == link_key(fs[v]);
        if u < w {
            assert(v < u < w);
        }
    }
}

proof fn lemma_step_new(fs: Seq<FileEntry>, ndx_start: i32, w: int, n: int, key: (u64, u64))
    requires
        0 <= w < n == fs.len(),
        link_key(fs[w]) == Some(key),
        first_with(fs, key, 0) == Some(w),
        forall|v: int| 0 <= v < w ==> link_key(#[trigger] fs[v]) != Some(key),
    ensures
        forall|v: int| 0 <= v < n ==> #[trigger] marked(fs, ndx_start, v, w) == marked(
            fs,
            ndx_start,
            v,
            w + 1,
        ),
{
    assert forall|v: int| 0 <= v < n implies #[trigger] marked(fs, ndx_start, v, w) == marked(
        fs,
        ndx_start,
        v,
        w + 1,
    ) by {
        lemma_named_again(fs, v, w);
        match link_key(fs[v]) {
            Some(q) => {
                lemma_first_with(fs, q, 0);
            },
            None => {},
        }
    }
}

proof fn lemma_step_other(
    fs: Seq<FileEntry>,
    ndx_start: i32,
    w: int,
    n: int,
    first: int,
    key: (u64, u64),
)
    requires
        0 <= first < w < n == fs.len(),
        link_key(fs[w]) == Some(key),
        link_key(fs[first]) == Some(key),
        first_with(fs, key, 0) == Some(first),
    ensures
        forall|v: int|
            0 <= v < n && v != w && v != first ==> #[trigger] marked(fs, ndx_start, v, w) == marked(
                fs,
                ndx_start,
                v,
                w + 1,
            ),
        marked(fs, ndx_start, first, w + 1) == (FileEntry {
            flags: fs[first].flags | (FLAG_HLINKED | FLAG_HLINK_FIRST),
            ..fs[first]
        }),
        marked(fs, ndx_start, first, w) == fs[first] || marked(fs, ndx_start, first, w) == marked(
            fs,
            ndx_start,
            first,
            w + 1,
        ),
        marked(fs, ndx_start, w, w + 1) == (FileEntry {
            flags: fs[w].flags | FLAG_HLINKED,
            hard_link_first_ndx: (ndx_start + first) as i32,
            ..fs[w]
        }),
{
    lemma_named_again(fs, first, w);
    assert forall|v: int|
        0 <= v < n && v != w && v != first implies #[trigger] marked(fs, ndx_start, v, w) == marked(
        fs,
        ndx_start,
        v,
        w + 1,
    ) by {
        lemma_named_again(fs, v, w);
        match link_key(fs[v]) {
            Some(q) => {
                lemma_first_with(fs, q, 0);
                lemma_first_with(fs, key, 0);
            },
            None => {},
        }
    }
}

} // verus!
