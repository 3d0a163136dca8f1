//! Deleting what the other side does not have.
//!
//! Everything in the file list stays, and so does every directory that
//! something in the list is in; the rest of the destination goes.

use vstd::prelude::*;

use crate::path::{components, is_front, split_path, starts_path};
use crate::protocol::types::{entries, FileEntry, FileList, Stats};
use crate::text::{same_text, texts};

verus! {

/// What a path says of what stays: nothing where it is the top directory.
pub open spec fn says_nothing(path: Seq<char>) -> bool {
    path.len() == 0 || path == "."@
}

/// The paths that stay, taken apart.
pub open spec fn staying(fs: Seq<FileEntry>) -> Seq<Seq<Seq<char>>>
    decreases fs.len(),
{
    if fs.len() == 0 {
        Seq::empty()
    } else if says_nothing(fs.last().path()) {
        staying(fs.drop_last())
    } else {
        staying(fs.drop_last()).push(components(fs.last().path()))
    }
}

/// Whether a path stays: it leads to something that does, or is on the way to
/// it.
pub open spec fn stays(kept: Seq<Seq<Seq<char>>>, rel: Seq<char>) -> bool {
    components(rel).len() > 0 && exists|i: int|
        0 <= i < kept.len() && is_front(components(rel), #[trigger] kept[i])
}

/// The paths that stay.
#[derive(Debug)]
pub struct KeepSet {
    pub paths: Vec<Vec<String>>,
}

impl View for KeepSet {
    type V = Seq<Seq<Seq<char>>>;

    open spec fn view(&self) -> Seq<Seq<Seq<char>>> {
        Seq::new(self.paths@.len(), |i: int| texts(self.paths@[i]@))
    }
}

impl KeepSet {
    /// Nothing stays.
    pub fn new() -> (k: KeepSet)
        ensures
            k@ == Seq::<Seq<Seq<char>>>::empty(),
    {
        let k: KeepSet = KeepSet { paths: Vec::new() };
        assert(k@ =~= Seq::<Seq<Seq<char>>>::empty());
        k
    }

    /// Lets a path stay.
    pub fn keep(&mut self, path: &str)
        ensures
            final(self)@ == old(self)@.push(components(path@)),
    {
        self.paths.push(split_path(path));
        assert(self@ =~= old(self)@.push(components(path@)));
    }

    /// The paths of a file list.
    pub fn of_list(flist: &FileList) -> (k: KeepSet)
        ensures
            k@ == staying(entries(flist.files@)),
    {
        let ghost fs = entries(flist.files@);
        let mut k: KeepSet = KeepSet::new();
        let mut i: usize = 0;
        assert(k@ =~= staying(fs.take(0)));
        while i < flist.files.len()
            invariant
                i <= flist.files@.len(),
                fs == entries(flist.files@),
                k@ == staying(fs.take(i as int)),
            decreases flist.files@.len() - i,
        {
            let path: String = flist.files[i].path();
            let ghost next = fs.take(i + 1);
            assert(next.drop_last() =~= fs.take(i as int));
            assert(next.last().path() == path@);
            let top: bool = same_text(path.as_str(), ".") || path.as_str().is_empty();
            assert(path@.len() == 0 ==> path@ =~= Seq::<char>::empty());
            if !top {
                k.keep(path.as_str());
            }
            i = i + 1;
        }
        assert(fs.take(i as int) =~= fs);
        k
    }

    /// Whether a path stays.
    pub fn keeps(&self, rel: &str) -> (b: bool)
        ensures
            b == stays(self@, rel@),
    {
        let c: Vec<String> = split_path(rel);
        assert(texts(c@).len() == c@.len());
        if c.len() == 0 {
            return false;
        }
        let mut i: usize = 0;
        while i < self.paths.len()
            invariant
                i <= self.paths@.len(),
                texts(c@) == components(rel@),
                components(rel@).len() > 0,
                forall|k: int| 0 <= k < i ==> !is_front(components(rel@), #[trigger] self@[k]),
            decreases self.paths@.len() - i,
        {
            assert(self@[i as int] == texts(self.paths@[i as int]@));
            if starts_path(&c, &self.paths[i]) {
                return true;
            }
            i = i + 1;
        }
        false
    }
}

/// What is done with an entry of the destination.
#[derive(Clone, Copy, Debug, PartialEq, Eq, Structural)]
pub enum DeleteAction {
    Keep,
    /// Keep the directory and look into it.
    Descend,
    RemoveDir,
    RemoveSymlink,
    RemoveFile,
}

/// What is done with an entry of the destination.
pub open spec fn dealt_with(kept: bool, is_dir: bool, is_symlink: bool) -> DeleteAction {
    if kept {
        if is_dir {
            DeleteAction::Descend
        } else {
            DeleteAction::Keep
        }
    } else if is_dir {
        DeleteAction::RemoveDir
    } else if is_symlink {
        DeleteAction::RemoveSymlink
    } else {
        DeleteAction::RemoveFile
    }
}

/// What is done with an entry of the destination: what stays is left alone,
/// and a directory that stays is looked into.
pub fn delete_action(kept: bool, is_dir: bool, is_symlink: bool) -> (a: DeleteAction)
    ensures
        a == dealt_with(kept, is_dir, is_symlink),
        a == if kept && is_dir {
            DeleteAction::Descend
        } else if kept {
            DeleteAction::Keep
        } else if is_dir {
            DeleteAction::RemoveDir
        } else if is_symlink {
            DeleteAction::RemoveSymlink
        } else {
            DeleteAction::RemoveFile
        },
{
    if kept && is_dir {
        DeleteAction::Descend
    } else if kept {
        DeleteAction::Keep
    } else if is_dir {
        DeleteAction::RemoveDir
    } else if is_symlink {
        DeleteAction::RemoveSymlink
    } else {
        DeleteAction::RemoveFile
    }
}

/// The counters after an entry of the destination was dealt with.
pub open spec fn deletion_counted(s: Stats, a: DeleteAction) -> Stats {
    match a {
        DeleteAction::RemoveDir => Stats { deleted_dirs: (s.deleted_dirs + 1) as i32, ..s },
        DeleteAction::RemoveSymlink => Stats {
            deleted_symlinks: (s.deleted_symlinks + 1) as i32,
            ..s
        },
        DeleteAction::RemoveFile => Stats { deleted_files: (s.deleted_files + 1) as i32, ..s },
        _ => s,
    }
}

/// Counts what was deleted.
pub fn count_deletion(stats: &mut Stats, a: DeleteAction)
    requires
        old(stats).deleted_dirs < i32::MAX,
        old(stats).deleted_symlinks < i32::MAX,
        old(stats).deleted_files < i32::MAX,
    ensures
        *final(stats) == deletion_counted(*old(stats), a),
{
    match a {
        DeleteAction::RemoveDir => {
            stats.deleted_dirs = stats.deleted_dirs + 1;
        },
        DeleteAction::RemoveSymlink => {
            stats.deleted_symlinks = stats.deleted_symlinks + 1;
        },
        DeleteAction::RemoveFile => {
            stats.deleted_files = stats.deleted_files + 1;
        },
        _ => {},
    }
}

/// Every file of the list stays, and so does every directory on the way to
/// it: whatever is the beginning of its path.
pub proof fn listed_files_stay(fs: Seq<FileEntry>, i: int, rel: Seq<char>)
    requires
        0 <= i < fs.len(),
        !says_nothing(fs[i].path()),
        components(rel).len() > 0,
        is_front(components(rel), components(fs[i].path())),
    ensures
        stays(staying(fs), rel),
    decreases fs.len(),
{
    let kept = staying(fs);
    let before = staying(fs.drop_last());
    if i == fs.len() - 1 {
        assert(kept[before.len() as int] == components(fs[i].path()));
    } else {
        assert(fs.drop_last()[i] == fs[i]);
        listed_files_stay(fs.drop_last(), i, rel);
        let k = choose|k: int|
            0 <= k < before.len() && is_front(components(rel), #[trigger] before[k]);
        assert(kept[k] == before[k]);
    }
}

/// What stays is the beginning of the path of a file in the list: nothing
/// else is spared.
pub proof fn only_listed_files_stay(fs: Seq<FileEntry>, rel: Seq<char>)
    requires
        stays(staying(fs), rel),
    ensures
        exists|i: int|
            0 <= i < fs.len() && is_front(components(rel), components((#[trigger] fs[i]).path())),
    decreases fs.len(),
{
    let kept = staying(fs);
    let k = choose|k: int| 0 <= k < kept.len() && is_front(components(rel), #[trigger] kept[k]);
    if fs.len() > 0 {
        let before = staying(fs.drop_last());
        if k < before.len() {
            assert(before[k] == kept[k]);
            only_listed_files_stay(fs.drop_last(), rel);
            let i = choose|i: int|
                0 <= i < fs.drop_last().len() && is_front(
                    components(rel),
                    components((#[trigger] fs.drop_last()[i]).path()),
                );
            assert(fs[i] == fs.drop_last()[i]);
        } else {
            assert(is_front(components(rel), components(fs[fs.len() - 1].path())));
        }
    }
}

} // verus!
