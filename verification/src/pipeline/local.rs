//! Transfers between two places on one machine: what is copied where.

use std::collections::HashMap;

use vstd::prelude::*;

use crate::options::Options;
use crate::path::{base_name, ends_with_slash, file_name, has_trailing_slash};
use crate::protocol::types::{opt_text, Stats};
use crate::text::{lemma_texts_push, text, texts};

verus! {

broadcast use vstd::std_specs::hash::group_hash_axioms;

/// What a local transfer did.
#[derive(Debug, Clone, Default)]
pub struct LocalReport {
    pub stats: Stats,
    /// The files that were copied.
    pub xferred: Vec<String>,
    /// The files that were deleted.
    pub deleted: Vec<String>,
    /// The files that were linked to others.
    pub hardlinked: Vec<String>,
}

/// Whether the destination is a directory to copy into.
pub open spec fn is_copied_into(dest: Seq<char>, sources: nat, is_dir: bool) -> bool {
    ends_with_slash(dest) || sources > 1 || is_dir
}

/// Whether the destination is a directory to copy into: its name ends with a
/// slash, there are several sources, or it is one already.
pub fn treats_as_dir(dest: &str, sources: usize, is_dir: bool) -> (b: bool)
    ensures
        b == is_copied_into(dest@, sources as nat, is_dir),
        b == (ends_with_slash(dest@) || sources > 1 || is_dir),
{
    has_trailing_slash(dest) || sources > 1 || is_dir
}

/// What is done with a source.
#[derive(Debug)]
pub enum SourcePlan {
    /// A directory of this name is passed over.
    SkipDir(String),
    /// The contents of a directory go into the destination, or into a
    /// directory of this name there.
    Dir(Option<String>),
    /// A file of this name goes to the destination itself or into it.
    File { name: String, into_dir: bool },
    /// The source has no name.
    NoName,
}

/// The model of what is done with a source.
pub enum SourceModel {
    SkipDir(Seq<char>),
    Dir(Option<Seq<char>>),
    File { name: Seq<char>, into_dir: bool },
    NoName,
}

impl View for SourcePlan {
    type V = SourceModel;

    open spec fn view(&self) -> SourceModel {
        match self {
            SourcePlan::SkipDir(s) => SourceModel::SkipDir(s@),
            SourcePlan::Dir(s) => SourceModel::Dir(opt_text(*s)),
            SourcePlan::File { name, into_dir } => SourceModel::File {
                name: name@,
                into_dir: *into_dir,
            },
            SourcePlan::NoName => SourceModel::NoName,
        }
    }
}

/// What is done with a source.  A slash behind a directory stands for its
/// contents; without it the directory itself is copied into the destination.
pub open spec fn source_model(
    src: Seq<char>,
    is_dir: bool,
    recursive: bool,
    dest_is_dir: bool,
) -> SourceModel {
    if is_dir {
        if !recursive {
            SourceModel::SkipDir(
                match base_name(src) {
                    Some(n) => n,
                    None => src,
                },
            )
        } else if ends_with_slash(src) || !dest_is_dir {
            SourceModel::Dir(None)
        } else {
            match base_name(src) {
                Some(n) => SourceModel::Dir(Some(n)),
                None => SourceModel::NoName,
            }
        }
    } else {
        match base_name(src) {
            Some(n) => SourceModel::File { name: n, into_dir: dest_is_dir },
            None => SourceModel::NoName,
        }
    }
}

/// Decides what is done with a source.
pub fn plan_source(src: &str, is_dir: bool, recursive: bool, dest_is_dir: bool) -> (p: SourcePlan)
    ensures
        p@ == source_model(src@, is_dir, recursive, dest_is_dir),
{
    let name: Option<String> = file_name(src);
    if is_dir {
        if !recursive {
            return SourcePlan::SkipDir(
                match name {
                    Some(n) => n,
                    None => text(src),
                },
            );
        }
        if has_trailing_slash(src) || !dest_is_dir {
            return SourcePlan::Dir(None);
        }
        match name {
            Some(n) => SourcePlan::Dir(Some(n)),
            None => SourcePlan::NoName,
        }
    } else {
        match name {
            Some(n) => SourcePlan::File { name: n, into_dir: dest_is_dir },
            None => SourcePlan::NoName,
        }
    }
}

/// What is compared to tell whether two files are the same.
#[derive(Clone, Copy, Debug)]
pub struct SyncFacts {
    pub is_dir: bool,
    pub is_file: bool,
    pub len: u64,
    /// The time of modification, in seconds and nanoseconds.
    pub mtime: Option<(i64, u32)>,
}

/// Whether a destination is in step with its source: the same kind, the same
/// size, and the same time.
pub open spec fn is_in_sync(dest: Option<SyncFacts>, src: SyncFacts) -> bool {
    match dest {
        None => false,
        Some(d) => d.is_dir == src.is_dir && (d.is_file && src.is_file ==> d.len == src.len)
            && d.mtime is Some && d.mtime == src.mtime,
    }
}

/// Tells whether a destination is in step with its source.
pub fn dest_in_sync(dest: Option<SyncFacts>, src: SyncFacts) -> (b: bool)
    ensures
        b == is_in_sync(dest, src),
{
    match dest {
        None => false,
        Some(d) => {
            if d.is_dir != src.is_dir {
                return false;
            }
            if d.is_file && src.is_file && d.len != src.len {
                return false;
            }
            match (d.mtime, src.mtime) {
                (Some((s1, n1)), Some((s2, n2))) => s1 == s2 && n1 == n2,
                _ => false,
            }
        },
    }
}

/// What is known of a file that is to be copied.
#[derive(Clone, Copy, Debug, PartialEq, Eq, Structural)]
pub struct EntryFacts {
    pub is_file: bool,
    pub is_symlink: bool,
    pub links: u64,
    pub dev: u64,
    pub ino: u64,
    pub len: u64,
    /// Whether the destination is in step already.
    pub in_sync: bool,
}

/// What is done with a file.
#[derive(Debug)]
pub enum CopyAction {
    /// Link it to this copy of another name of it.
    HardLink(String),
    UpToDate,
    /// Only say that it would be copied.
    DryRun,
    Symlink,
    Regular,
    /// Neither a file nor a link.
    Skip,
}

/// The model of what is done with a file.
pub enum CopyModel {
    HardLink(Seq<char>),
    UpToDate,
    DryRun,
    Symlink,
    Regular,
    Skip,
}

impl View for CopyAction {
    type V = CopyModel;

    open spec fn view(&self) -> CopyModel {
        match self {
            CopyAction::HardLink(s) => CopyModel::HardLink(s@),
            CopyAction::UpToDate => CopyModel::UpToDate,
            CopyAction::DryRun => CopyModel::DryRun,
            CopyAction::Symlink => CopyModel::Symlink,
            CopyAction::Regular => CopyModel::Regular,
            CopyAction::Skip => CopyModel::Skip,
        }
    }
}

/// The first copy of each file that has several names.
pub struct LinkMap {
    by_inode: HashMap<u128, String>,
}

spec fn inode_number(key: (u64, u64)) -> u128 {
    (key.0 * 0x1_0000_0000_0000_0000 + key.1) as u128
}

impl View for LinkMap {
    type V = Map<(u64, u64), Seq<char>>;

    closed spec fn view(&self) -> Map<(u64, u64), Seq<char>> {
        Map::new(
            |key: (u64, u64)| self.by_inode@.dom().contains(inode_number(key)),
            |key: (u64, u64)| self.by_inode@[inode_number(key)]@,
        )
    }
}

/// Whether a file may have a copy already: hard links are kept, and it has
/// several names.
pub open spec fn may_be_linked(o: Options, f: EntryFacts) -> bool {
    o.hard_links && f.is_file && f.links > 1
}

/// What is done with a file that is not linked to another.
pub open spec fn plain_copy(o: Options, f: EntryFacts) -> CopyModel {
    if !o.checksum && f.in_sync {
        CopyModel::UpToDate
    } else if o.dry_run {
        CopyModel::DryRun
    } else if f.is_symlink {
        CopyModel::Symlink
    } else if f.is_file {
        CopyModel::Regular
    } else {
        CopyModel::Skip
    }
}

/// What is done with a file, given the copies so far.
pub open spec fn copy_model(
    o: Options,
    f: EntryFacts,
    links: Map<(u64, u64), Seq<char>>,
) -> CopyModel {
    if may_be_linked(o, f) && links.dom().contains((f.dev, f.ino)) {
        CopyModel::HardLink(links[(f.dev, f.ino)])
    } else {
        plain_copy(o, f)
    }
}

/// The copies after a file: its own where it is the first of its names.
pub open spec fn links_after(
    o: Options,
    f: EntryFacts,
    links: Map<(u64, u64), Seq<char>>,
    dest: Seq<char>,
) -> Map<(u64, u64), Seq<char>> {
    if may_be_linked(o, f) && !links.dom().contains((f.dev, f.ino)) && !o.dry_run {
        links.insert((f.dev, f.ino), dest)
    } else {
        links
    }
}

impl LinkMap {
    /// No copies yet.
    pub fn new() -> (m: LinkMap)
        ensures
            m@ == Map::<(u64, u64), Seq<char>>::empty(),
    {
        let m: LinkMap = LinkMap { by_inode: HashMap::new() };
        assert(m@ =~= Map::<(u64, u64), Seq<char>>::empty());
        m
    }

    /// Decides what is done with a file that is to become `dest`.
    pub fn copy_action(&mut self, opts: &Options, f: &EntryFacts, dest: &str) -> (a: CopyAction)
        ensures
            a@ == copy_model(*opts, *f, old(self)@),
            final(self)@ == links_after(*opts, *f, old(self)@, dest@),
    {
        if opts.hard_links && f.is_file && f.links > 1 {
            let key: u128 = f.dev as u128 * 0x1_0000_0000_0000_0000 + f.ino as u128;
            assert(key == inode_number((f.dev, f.ino)));
            match self.by_inode.get(&key) {
                Some(first) => {
                    return CopyAction::HardLink(first.clone());
                },
                None => {},
            }
            if !opts.dry_run {
                let ghost before = self@;
                let ghost raw = self.by_inode@;
                let own: String = text(dest);
                self.by_inode.insert(key, own);
                proof {
                    let after = self@;
                    let want = before.insert((f.dev, f.ino), dest@);
                    assert forall|k: (u64, u64)| after.dom().contains(k) == want.dom().contains(
                        k,
                    ) by {
                        if k != (f.dev, f.ino) {
                            assert(inode_number(k) != key);
                        }
                    }
                    assert forall|k: (u64, u64)| want.dom().contains(k) implies after[k]
                        == want[k] by {
                        if k != (f.dev, f.ino) {
                            assert(inode_number(k) != key);
                        }
                    }
                    assert(after =~= want);
                }
            }
        }
        if !opts.checksum && f.in_sync {
            CopyAction::UpToDate
        } else if opts.dry_run {
            CopyAction::DryRun
        } else if f.is_symlink {
            CopyAction::Symlink
        } else if f.is_file {
            CopyAction::Regular
        } else {
            CopyAction::Skip
        }
    }
}

/// The counters after a file was dealt with.
pub open spec fn copy_counted(s: Stats, a: CopyModel, len: u64) -> Stats {
    match a {
        CopyModel::UpToDate => s,
        CopyModel::Skip => s,
        CopyModel::Regular => Stats {
            total_size: (s.total_size + len) as i64,
            total_written: (s.total_written + len) as i64,
            xferred_files: (s.xferred_files + 1) as i32,
            ..s
        },
        _ => Stats { xferred_files: (s.xferred_files + 1) as i32, ..s },
    }
}

/// The files that were copied, once a file was dealt with.
pub open spec fn copied_after(before: Seq<Seq<char>>, a: CopyModel, dest: Seq<char>) -> Seq<
    Seq<char>,
> {
    if a is Symlink || a is Regular {
        before.push(dest)
    } else {
        before
    }
}

/// The files that were linked to others, once a file was dealt with.
pub open spec fn linked_after(before: Seq<Seq<char>>, a: CopyModel, dest: Seq<char>) -> Seq<
    Seq<char>,
> {
    if a is HardLink {
        before.push(dest)
    } else {
        before
    }
}

impl LocalReport {
    /// Takes note of what was done with a file.
    pub fn note(&mut self, a: &CopyAction, dest: &str, len: u64)
        requires
            a@ is Regular ==> len <= i64::MAX && old(self).stats.total_size + len <= i64::MAX
                && old(self).stats.total_written + len <= i64::MAX,
            !(a@ is UpToDate || a@ is Skip) ==> old(self).stats.xferred_files < i32::MAX,
        ensures
            final(self).stats == copy_counted(old(self).stats, a@, len),
            texts(final(self).xferred@) == copied_after(texts(old(self).xferred@), a@, dest@),
            texts(final(self).hardlinked@) == linked_after(texts(old(self).hardlinked@), a@, dest@),
            final(self).deleted == old(self).deleted,
            texts(final(self).xferred@) == if a@ is Symlink || a@ is Regular {
                texts(old(self).xferred@).push(dest@)
            } else {
                texts(old(self).xferred@)
            },
            texts(final(self).hardlinked@) == if a@ is HardLink {
                texts(old(self).hardlinked@).push(dest@)
            } else {
                texts(old(self).hardlinked@)
            },
    {
        match a {
            CopyAction::UpToDate => {},
            CopyAction::Skip => {},
            CopyAction::DryRun => {
                self.stats.xferred_files = self.stats.xferred_files + 1;
            },
            CopyAction::HardLink(_) => {
                self.stats.xferred_files = self.stats.xferred_files + 1;
                let d: String = text(dest);
                proof {
                    lemma_texts_push(self.hardlinked@, d);
                }
                self.hardlinked.push(d);
            },
            CopyAction::Symlink => {
                self.stats.xferred_files = self.stats.xferred_files + 1;
                let d: String = text(dest);
                proof {
                    lemma_texts_push(self.xferred@, d);
                }
                self.xferred.push(d);
            },
            CopyAction::Regular => {
                self.stats.total_size = self.stats.total_size + len as i64;
                self.stats.total_written = self.stats.total_written + len as i64;
                self.stats.xferred_files = self.stats.xferred_files + 1;
                let d: String = text(dest);
                proof {
                    lemma_texts_push(self.xferred@, d);
                }
                self.xferred.push(d);
            },
        }
    }
}

/// What of a file is kept.
#[derive(Clone, Copy, Debug, PartialEq, Eq, Structural)]
pub struct MetaPlan {
    pub times: bool,
    pub perms: bool,
    pub owner: bool,
    pub group: bool,
}

/// What is kept of a file.
pub open spec fn kept_of_file(o: Options) -> MetaPlan {
    MetaPlan {
        times: o.times || o.archive,
        perms: o.perms || o.archive,
        owner: o.owner || o.archive,
        group: o.group || o.archive,
    }
}

/// What is kept of a directory.
pub open spec fn kept_of_dir(o: Options) -> MetaPlan {
    let on = !o.dry_run && (o.times || o.archive) && !o.omit_dir_times;
    MetaPlan { times: on, perms: on && (o.perms || o.archive), owner: false, group: false }
}

/// What is kept of a file.
pub fn file_meta(opts: &Options) -> (p: MetaPlan)
    ensures
        p == kept_of_file(*opts),
        p == (MetaPlan {
            times: opts.times || opts.archive,
            perms: opts.perms || opts.archive,
            owner: opts.owner || opts.archive,
            group: opts.group || opts.archive,
        }),
{
    MetaPlan {
        times: opts.times || opts.archive,
        perms: opts.perms || opts.archive,
        owner: opts.owner || opts.archive,
        group: opts.group || opts.archive,
    }
}

/// What is kept of a directory: nothing in a dry run, nothing unless times
/// are kept, and nothing where those of directories are left out.
pub fn dir_meta(opts: &Options) -> (p: MetaPlan)
    ensures
        p == kept_of_dir(*opts),
        ({
            let on = !opts.dry_run && (opts.times || opts.archive) && !opts.omit_dir_times;
            p == (MetaPlan {
                times: on,
                perms: on && (opts.perms || opts.archive),
                owner: false,
                group: false,
            })
        }),
{
    let on: bool = !opts.dry_run && (opts.times || opts.archive) && !opts.omit_dir_times;
    MetaPlan { times: on, perms: on && (opts.perms || opts.archive), owner: false, group: false }
}

/// What is put behind the name of a backup: a tilde, unless the backups have a
/// directory of their own or the options say otherwise.
pub open spec fn backup_suffix(o: Options) -> Seq<char> {
    match o.suffix {
        Some(s) => s@,
        None => if o.backup_dir is Some {
            Seq::empty()
        } else {
            "~"@
        },
    }
}

/// Where the older version of a file is kept: beside it, or under the same
/// path in the directory of backups.
pub open spec fn backup_model(o: Options, dest: Seq<char>, rel: Seq<char>) -> Option<Seq<char>> {
    if !o.backup {
        None
    } else {
        match o.backup_dir {
            Some(dir) => Some(dir@ + "/"@ + rel + backup_suffix(o)),
            None => Some(dest + backup_suffix(o)),
        }
    }
}

/// Finds where the older version of the file `dest`, which is at `rel` below
/// the destination, is kept before it is replaced; nowhere unless backups are
/// asked for.
pub fn backup_path(opts: &Options, dest: &str, rel: &str) -> (res: Option<String>)
    ensures
        match res {
            Some(p) => backup_model(*opts, dest@, rel@) == Some(p@),
            None => backup_model(*opts, dest@, rel@) == None::<Seq<char>>,
        },
{
    if !opts.backup {
        return None;
    }
    let mut path: String = match &opts.backup_dir {
        Some(dir) => {
            let mut p: String = text(dir.as_str());
            p.push_str("/");
            p.push_str(rel);
            p
        },
        None => text(dest),
    };
    match &opts.suffix {
        Some(s) => {
            path.push_str(s.as_str());
        },
        None => {
            if opts.backup_dir.is_none() {
                path.push_str("~");
            } else {
                assert(path@ =~= path@ + Seq::<char>::empty());
            }
        },
    }
    Some(path)
}

/// A backup in place never takes the place of the file itself, as long as its
/// suffix is not empty.
pub proof fn backups_stand_aside(o: Options, dest: Seq<char>, rel: Seq<char>)
    requires
        o.backup,
        o.backup_dir is None,
        backup_suffix(o).len() > 0,
    ensures
        backup_model(o, dest, rel) matches Some(p) && p != dest && p.len() > dest.len(),
{
}

/// A file that has several names is copied once: the second name that comes
/// by is linked to the copy of the first.
pub proof fn second_name_is_linked(
    o: Options,
    first: EntryFacts,
    second: EntryFacts,
    links: Map<(u64, u64), Seq<char>>,
    dest: Seq<char>,
)
    requires
        may_be_linked(o, first),
        may_be_linked(o, second),
        !o.dry_run,
        first.dev == second.dev,
        first.ino == second.ino,
        !links.dom().contains((first.dev, first.ino)),
    ensures
        copy_model(o, second, links_after(o, first, links, dest)) == CopyModel::HardLink(dest),
{
}

} // verus!
