//! What a server does: its options, its sources, and what the two sides of a
//! session are agreed on once it has started.

use vstd::prelude::*;

use crate::checksum::strong::{protocol_checksum, ChecksumType};
use crate::filter::{excludes, FilterList};
use crate::options::Options;
use crate::options_server::ServerFlags;
use crate::protocol::constants::CsumType;
use crate::protocol::types::{blank_entry, dir_part, base_part, split_rel, FileEntry, FileInfo};
use crate::session::{csum_name, strong_to_csum_type};
use crate::text::{text, texts};
use crate::transport::local::{push_word, push_words};

verus! {

/// Whether `g` are the options `f` of a server with those that it was started
/// with otherwise, and with `a` taken apart.
pub open spec fn flags_merged(f: ServerFlags, o: Options, g: ServerFlags) -> bool {
    &&& g.verbose == f.verbose + o.verbose
    &&& g.archive == (f.archive || o.archive)
    &&& g.compress == (f.compress || o.compress)
    &&& g.recursive == (f.recursive || o.recursive || g.archive)
    &&& g.links == (f.links || g.archive)
    &&& g.perms == (f.perms || g.archive)
    &&& g.times == (f.times || o.times || g.archive)
    &&& g.group == (f.group || o.group || g.archive)
    &&& g.owner == (f.owner || o.owner || g.archive)
    &&& g.devices == (f.devices || g.archive)
    &&& g.specials == (f.specials || g.archive)
    &&& g.quiet == f.quiet
    &&& g.checksum == f.checksum
    &&& g.update == f.update
    &&& g.hard_links == f.hard_links
    &&& g.copy_links == f.copy_links
    &&& g.keep_dirlinks == f.keep_dirlinks
    &&& g.whole_file == f.whole_file
    &&& g.dry_run == f.dry_run
    &&& g.relative == f.relative
    &&& g.itemize == f.itemize
    &&& g.fuzzy == f.fuzzy
    &&& g.xattrs == f.xattrs
    &&& g.cvs_exclude == f.cvs_exclude
    &&& g.ignore_times == f.ignore_times
    &&& g.one_file_system == f.one_file_system
    &&& g.protect_args == f.protect_args
    &&& g.delete == f.delete
    &&& g.unknown == f.unknown
    &&& g.e_tail == f.e_tail
}

/// Adds the options that a server was started with otherwise.
pub fn merge_options(flags: ServerFlags, opts: &Options) -> (g: ServerFlags)
    requires
        flags.verbose + opts.verbose <= u32::MAX,
    ensures
        flags_merged(flags, *opts, g),
{
    let archive: bool = flags.archive || opts.archive;
    ServerFlags {
        verbose: flags.verbose + opts.verbose as u32,
        archive,
        compress: flags.compress || opts.compress,
        recursive: flags.recursive || opts.recursive || archive,
        links: flags.links || archive,
        perms: flags.perms || archive,
        times: flags.times || opts.times || archive,
        group: flags.group || opts.group || archive,
        owner: flags.owner || opts.owner || archive,
        devices: flags.devices || archive,
        specials: flags.specials || archive,
        quiet: flags.quiet,
        checksum: flags.checksum,
        update: flags.update,
        hard_links: flags.hard_links,
        copy_links: flags.copy_links,
        keep_dirlinks: flags.keep_dirlinks,
        whole_file: flags.whole_file,
        dry_run: flags.dry_run,
        relative: flags.relative,
        itemize: flags.itemize,
        fuzzy: flags.fuzzy,
        xattrs: flags.xattrs,
        cvs_exclude: flags.cvs_exclude,
        ignore_times: flags.ignore_times,
        one_file_system: flags.one_file_system,
        protect_args: flags.protect_args,
        delete: flags.delete,
        unknown: flags.unknown,
        e_tail: flags.e_tail,
    }
}

/// Where a server starts and what it sends: the first path is where it
/// starts, and the others are sent; a single one is both.
pub open spec fn sources_of(paths: Seq<Seq<char>>) -> (Seq<char>, Seq<Seq<char>>) {
    if paths.len() > 1 {
        (paths[0], paths.skip(1))
    } else if paths.len() == 1 {
        (paths[0], paths)
    } else {
        ("."@, seq!["."@])
    }
}

/// Finds where a server starts and what it sends.
pub fn source_paths(paths: &[String]) -> (res: (String, Vec<String>))
    ensures
        (res.0@, texts(res.1@)) == sources_of(texts(paths@)),
{
    let mut out: Vec<String> = Vec::new();
    assert(texts(out@) =~= Seq::<Seq<char>>::empty());
    assert(texts(paths@).len() == paths@.len());
    if paths.len() > 1 {
        let base: String = text(paths[0].as_str());
        let rest: &[String] = paths.split_at(1).1;
        push_words(&mut out, rest);
        assert(texts(rest@) =~= texts(paths@).skip(1));
        assert(texts(out@) =~= texts(paths@).skip(1));
        (base, out)
    } else if paths.len() == 1 {
        let base: String = text(paths[0].as_str());
        push_words(&mut out, paths);
        assert(texts(out@) =~= texts(paths@));
        (base, out)
    } else {
        push_word(&mut out, ".");
        assert(texts(out@) =~= seq!["."@]);
        (text("."), out)
    }
}

/// The checksum of a session, and how many bytes of it the file list carries
/// for each file: none unless files are told apart by checksum.
pub fn session_checksum(protocol: u32, use_checksum: bool) -> (res: (CsumType, usize))
    ensures
        res.0 == csum_name(protocol_checksum(protocol)),
        res.1 == if use_checksum {
            16int
        } else {
            0
        },
{
    let ct: ChecksumType = ChecksumType::for_protocol(protocol, false);
    let n: usize = if use_checksum {
        ct.digest_len()
    } else {
        0
    };
    (strong_to_csum_type(ct), n)
}

/// A path within a directory.
pub open spec fn joined(prefix: Seq<char>, name: Seq<char>) -> Seq<char> {
    if prefix.len() == 0 {
        name
    } else {
        prefix + "/"@ + name
    }
}

/// A path within a directory.
pub fn join_rel(prefix: &str, name: &str) -> (s: String)
    ensures
        s@ == joined(prefix@, name@),
{
    let mut s: String = String::new();
    if !prefix.is_empty() {
        s.push_str(prefix);
        s.push_str("/");
    }
    s.push_str(name);
    assert(s@ =~= joined(prefix@, name@));
    s
}

/// What is done with an entry of a source directory.
#[derive(Clone, Copy, Debug, PartialEq, Eq, Structural)]
pub enum WalkAction {
    /// Pass it over.
    Skip,
    /// Take it into the list.
    Add,
    /// Take it into the list, with what it points to.
    AddLink,
    /// Take it into the list, and look into it.
    AddAndDescend,
}

/// What is done with an entry of a source directory, given whether the filter
/// excludes it.
pub open spec fn walked(
    excluded: bool,
    is_dir: bool,
    is_symlink: bool,
    recursive: bool,
) -> WalkAction {
    if excluded {
        WalkAction::Skip
    } else if is_symlink {
        WalkAction::AddLink
    } else if is_dir && recursive {
        WalkAction::AddAndDescend
    } else {
        WalkAction::Add
    }
}

/// Decides what is done with an entry of a source directory: what the filter
/// excludes is passed over, and a directory is looked into only in a
/// recursive transfer.
pub fn walk_action(
    filter: &FilterList,
    rel: &str,
    is_dir: bool,
    is_symlink: bool,
    recursive: bool,
) -> (a: WalkAction)
    ensures
        a == walked(excludes(filter@, rel@, is_dir), is_dir, is_symlink, recursive),
        a == if excludes(filter@, rel@, is_dir) {
            WalkAction::Skip
        } else if is_symlink {
            WalkAction::AddLink
        } else if is_dir && recursive {
            WalkAction::AddAndDescend
        } else {
            WalkAction::Add
        },
{
    if filter.is_excluded(rel, is_dir) {
        WalkAction::Skip
    } else if is_symlink {
        WalkAction::AddLink
    } else if is_dir && recursive {
        WalkAction::AddAndDescend
    } else {
        WalkAction::Add
    }
}

/// What the system says of a file.
#[derive(Clone, Copy, Debug, PartialEq, Eq, Structural)]
pub struct FileMeta {
    pub len: u64,
    pub mtime: i64,
    pub mode: u32,
    pub uid: u32,
    pub gid: u32,
    pub dev: u64,
    pub ino: u64,
}

/// The entry of a file in the list.
pub open spec fn entry_of(rel: Seq<char>, m: FileMeta) -> FileEntry {
    FileEntry {
        name: base_part(rel),
        dirname: dir_part(rel),
        size: m.len as i64,
        modtime: m.mtime,
        mode: m.mode,
        uid: m.uid,
        gid: m.gid,
        dev: m.dev,
        ino: m.ino,
        ..blank_entry()
    }
}

/// Makes the entry of a file in the list.
pub fn file_info_from_meta(rel: &str, m: &FileMeta) -> (f: FileInfo)
    ensures
        f@ == entry_of(rel@, *m),
{
    let (dirname, name) = split_rel(rel);
    let mut f: FileInfo = FileInfo::default();
    f.name = name;
    f.dirname = dirname;
    f.size = m.len as i64;
    f.modtime = m.mtime;
    f.mode = m.mode;
    f.uid = m.uid;
    f.gid = m.gid;
    f.dev = m.dev;
    f.ino = m.ino;
    assert(f@ =~= entry_of(rel@, *m));
    f
}

} // verus!
