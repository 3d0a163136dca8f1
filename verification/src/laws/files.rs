//! Which files are asked for, copied, linked, backed up and removed.

use vstd::prelude::*;

use crate::options::Options;
use crate::path::{base_name, components};
use crate::pipeline::generator::{is_out_of_date, FileStat};
use crate::pipeline::local::{
    backup_model, backup_suffix, copy_counted, copy_model, is_in_sync, links_after, source_model,
    CopyModel, EntryFacts, SourceModel, SyncFacts,
};
use crate::protocol::types::{FileEntry, Stats};

verus! {

// ---------------------------------------------------------------------------
// The quick check
// ---------------------------------------------------------------------------

/// A file that was edited is out of date though its length is the same, one
/// whose length is another is though its time is the same, and one that is not
/// there is in any case.
pub proof fn edited_file_is_out_of_date(f: FileEntry, s: FileStat)
    ensures
        s.mtime != f.modtime ==> is_out_of_date(f, Some(s)),
        f.size >= 0 && s.len != f.size ==> is_out_of_date(f, Some(s)),
        is_out_of_date(f, None),
{
}

/// A file that is there with the size and the time of the list is up to date,
/// whatever else the list says of it; and no other state of it is.
pub proof fn only_the_listed_state_is_up_to_date(f: FileEntry, s: FileStat)
    requires
        f.size >= 0,
    ensures
        s.len == f.size && s.mtime == f.modtime ==> !is_out_of_date(f, Some(s)),
        !is_out_of_date(f, Some(s)) ==> s.len == f.size && s.mtime == f.modtime,
{
}

/// Two states of a file that both count as up to date are the same state.
pub proof fn one_state_is_up_to_date(f: FileEntry, s: FileStat, t: FileStat)
    requires
        !is_out_of_date(f, Some(s)),
        !is_out_of_date(f, Some(t)),
    ensures
        s == t,
{
}

/// The quick check looks at nothing but size and time: two entries that share
/// them are out of date together.
pub proof fn quick_check_looks_at_size_and_time(f: FileEntry, g: FileEntry, found: Option<FileStat>)
    requires
        f.size == g.size,
        f.modtime == g.modtime,
    ensures
        is_out_of_date(f, found) == is_out_of_date(g, found),
{
}

// ---------------------------------------------------------------------------
// Copies on one machine
// ---------------------------------------------------------------------------

/// A destination with another time than its source, another size, or of
/// another kind is not in step with it, nor is one that is not there.
pub proof fn changed_source_is_not_in_step(dest: SyncFacts, src: SyncFacts)
    ensures
        dest.mtime != src.mtime ==> !is_in_sync(Some(dest), src),
        dest.is_file && src.is_file && dest.len != src.len ==> !is_in_sync(Some(dest), src),
        dest.is_dir != src.is_dir ==> !is_in_sync(Some(dest), src),
        dest.mtime is None || src.mtime is None ==> !is_in_sync(Some(dest), src),
        !is_in_sync(None, src),
{
}

/// A file is in step with itself, as long as its time is known, and two files
/// are in step with each other or neither is.
pub proof fn being_in_step_is_mutual(a: SyncFacts, b: SyncFacts)
    ensures
        is_in_sync(Some(a), a) == a.mtime is Some,
        is_in_sync(Some(a), b) == is_in_sync(Some(b), a),
{
}

/// Regular files that are in step with the same file agree in size and time.
pub proof fn files_in_step_agree(a: SyncFacts, b: SyncFacts, c: SyncFacts)
    requires
        a.is_file && b.is_file && c.is_file,
        is_in_sync(Some(a), b),
        is_in_sync(Some(b), c),
    ensures
        a.len == c.len,
        a.mtime == c.mtime,
        is_in_sync(Some(a), c),
{
}

/// Without a dry run, a regular file that is not in step with its destination
/// and is not another name of a file that was copied is copied.
pub proof fn changed_file_is_copied(
    o: Options,
    f: EntryFacts,
    dest: Option<SyncFacts>,
    src: SyncFacts,
    links: Map<(u64, u64), Seq<char>>,
)
    requires
        f.is_file,
        !f.is_symlink,
        f.in_sync == is_in_sync(dest, src),
        dest is None || dest->0.mtime != src.mtime || (dest->0.is_file && src.is_file && dest->0.len
            != src.len),
        !o.dry_run,
        !links.dom().contains((f.dev, f.ino)) || !o.hard_links || f.links <= 1,
    ensures
        copy_model(o, f, links) == CopyModel::Regular,
{
}

/// A dry run copies, links and makes nothing, unless a copy of the same file
/// was made already; and it never takes note of a copy.
pub proof fn dry_run_copies_nothing(
    o: Options,
    f: EntryFacts,
    links: Map<(u64, u64), Seq<char>>,
    dest: Seq<char>,
)
    requires
        o.dry_run,
    ensures
        links_after(o, f, links, dest) == links,
        !links.dom().contains((f.dev, f.ino)) ==> {
            &&& !(copy_model(o, f, links) is Regular)
            &&& !(copy_model(o, f, links) is Symlink)
            &&& !(copy_model(o, f, links) is HardLink)
        },
{
}

/// With `--checksum`, being in step does not spare a file.
pub proof fn checksum_spares_no_file(o: Options, f: EntryFacts, links: Map<(u64, u64), Seq<char>>)
    requires
        o.checksum,
    ensures
        !(copy_model(o, f, links) is UpToDate),
{
}

/// Without `--checksum`, a file in step that is no other name of a copied one
/// is left as it is.
pub proof fn file_in_step_is_left(o: Options, f: EntryFacts, links: Map<(u64, u64), Seq<char>>)
    requires
        !o.checksum,
        f.in_sync,
        !links.dom().contains((f.dev, f.ino)),
    ensures
        copy_model(o, f, links) is UpToDate,
{
}

/// A file is linked only to a copy of a file with its own device and inode,
/// and only where hard links are kept and it has several names.
pub proof fn only_names_of_one_file_are_linked(
    o: Options,
    f: EntryFacts,
    links: Map<(u64, u64), Seq<char>>,
)
    requires
        copy_model(o, f, links) is HardLink,
    ensures
        o.hard_links,
        f.is_file,
        f.links > 1,
        links.dom().contains((f.dev, f.ino)),
        copy_model(o, f, links) == CopyModel::HardLink(links[(f.dev, f.ino)]),
{
}

/// A copy is noted for its own file and no other, and the first copy of a file
/// stays the one that is noted.
pub proof fn first_copy_stays_noted(
    o: Options,
    f: EntryFacts,
    links: Map<(u64, u64), Seq<char>>,
    dest: Seq<char>,
    other: (u64, u64),
)
    ensures
        ({
            let after = links_after(o, f, links, dest);
            &&& links.dom().contains(other) ==> after.dom().contains(other) && after[other]
                == links[other]
            &&& other != (f.dev, f.ino) ==> after.dom().contains(other) == links.dom().contains(
                other,
            )
            &&& after.dom().contains(other) && !links.dom().contains(other) ==> after[other] == dest
        }),
{
}

/// What is neither a file nor a link is never copied.
pub proof fn special_file_is_not_copied(o: Options, f: EntryFacts, links: Map<(u64, u64), Seq<char>>)
    requires
        !f.is_file,
        !f.is_symlink,
    ensures
        copy_model(o, f, links) is UpToDate || copy_model(o, f, links) is DryRun || copy_model(
            o,
            f,
            links,
        ) is Skip,
{
}

/// What is done with a file counts once or not at all: an up-to-date file and
/// one that is passed over change no counter, and the bytes of a file count
/// where they were written.
pub proof fn copies_are_counted(s: Stats, a: CopyModel, len: u64)
    requires
        s.xferred_files < i32::MAX,
        0 <= s.total_size <= i64::MAX - len,
        0 <= s.total_written <= i64::MAX - len,
    ensures
        ({
            let t = copy_counted(s, a, len);
            &&& t.xferred_files == s.xferred_files || t.xferred_files == s.xferred_files + 1
            &&& (t.xferred_files == s.xferred_files) == (a is UpToDate || a is Skip)
            &&& t.total_written - s.total_written == if a is Regular {
                len as int
            } else {
                0
            }
            &&& t.total_size - s.total_size == t.total_written - s.total_written
            &&& t.total_read == s.total_read
            &&& t.literal_data == s.literal_data
            &&& t.matched_data == s.matched_data
            &&& t.num_files == s.num_files
            &&& t.deleted_files == s.deleted_files
        }),
{
}

/// A slash behind a directory stands for its contents: it is copied into the
/// destination itself, and without the slash into a directory of its name
/// there.
pub proof fn trailing_slash_means_contents(src: Seq<char>)
    requires
        src.len() > 0,
    ensures
        source_model(src.push('/'), true, true, true) == SourceModel::Dir(None),
        src.last() != '/' ==> match source_model(src, true, true, true) {
            SourceModel::Dir(Some(n)) => components(src).len() > 0 && n == components(src).last(),
            SourceModel::NoName => base_name(src) is None,
            _ => false,
        },
{
    assert(src.push('/').last() == '/');
}

/// A directory is copied only where directories are entered at all, whatever
/// the destination is.
pub proof fn directories_need_recursion(src: Seq<char>, dest_is_dir: bool)
    ensures
        source_model(src, true, false, dest_is_dir) is SkipDir,
        !(source_model(src, true, true, dest_is_dir) is SkipDir),
        !(source_model(src, true, true, dest_is_dir) is File),
        !(source_model(src, false, true, dest_is_dir) is Dir),
        source_model(src, false, true, dest_is_dir) == source_model(src, false, false, dest_is_dir),
{
}

/// A file goes into a destination that is a directory, and otherwise becomes
/// the destination; its name is the last component of its path.
pub proof fn file_keeps_its_name(src: Seq<char>, recursive: bool, dest_is_dir: bool)
    ensures
        match source_model(src, false, recursive, dest_is_dir) {
            SourceModel::File { name, into_dir } => into_dir == dest_is_dir && components(src).len()
                > 0 && name == components(src).last(),
            SourceModel::NoName => base_name(src) is None,
            _ => false,
        },
{
}

/// Backups are made only where they are asked for.  Beside the file the name
/// of the backup starts with that of the file; in a directory of backups it
/// lies there, under the same path.
pub proof fn backups_go_where_they_are_asked_for(o: Options, dest: Seq<char>, rel: Seq<char>)
    ensures
        (backup_model(o, dest, rel) is Some) == o.backup,
        o.backup && o.backup_dir is None ==> dest.is_prefix_of(backup_model(o, dest, rel)->0),
        o.backup && o.backup_dir is Some ==> (o.backup_dir->0@ + seq!['/'] + rel).is_prefix_of(
            backup_model(o, dest, rel)->0,
        ),
        o.backup && o.backup_dir is None && o.suffix is None ==> backup_model(o, dest, rel)
            == Some(dest.push('~')),
        o.backup && o.backup_dir is Some && o.suffix is None ==> backup_model(o, dest, rel) == Some(
            o.backup_dir->0@ + seq!['/'] + rel,
        ),
        o.backup && o.suffix is Some ==> ({
            let p = backup_model(o, dest, rel)->0;
            let s = o.suffix->0@;
            p.len() >= s.len() && p.skip(p.len() - s.len()) == s
        }),
{
    reveal_strlit("/");
    reveal_strlit("~");
    if o.backup {
        let p = backup_model(o, dest, rel)->0;
        let tail = backup_suffix(o);
        match o.backup_dir {
            None => {
                assert(p =~= dest + tail);
                assert(dest =~= p.subrange(0, dest.len() as int));
                assert(p.skip(dest.len() as int) =~= tail);
                if o.suffix is None {
                    assert(p =~= dest.push('~'));
                }
            },
            Some(dir) => {
                let front = dir@ + seq!['/'] + rel;
                assert(p =~= front + tail);
                assert(front =~= p.subrange(0, front.len() as int));
                assert(p.skip(front.len() as int) =~= tail);
                if o.suffix is None {
                    assert(p =~= front);
                }
            },
        }
    }
}

/// Two files beside each other have different backups, and one file has its
/// backups apart from those of other files in a directory of backups.
pub proof fn backups_are_kept_apart(
    o: Options,
    dest: Seq<char>,
    rel: Seq<char>,
    other_dest: Seq<char>,
    other_rel: Seq<char>,
)
    requires
        o.backup,
        backup_model(o, dest, rel) == backup_model(o, other_dest, other_rel),
    ensures
        o.backup_dir is None ==> dest == other_dest,
        o.backup_dir is Some ==> rel == other_rel,
{
    let tail = backup_suffix(o);
    let p = backup_model(o, dest, rel)->0;
    let q = backup_model(o, other_dest, other_rel)->0;
    match o.backup_dir {
        None => {
            assert(p.take(dest.len() as int) =~= dest);
            assert(q.take(other_dest.len() as int) =~= other_dest);
            assert(p.len() == dest.len() + tail.len());
            assert(q.len() == other_dest.len() + tail.len());
        },
        Some(dir) => {
            let n: int = dir@.len() as int + "/"@.len();
            assert(p.subrange(n, n + rel.len()) =~= rel);
            assert(q.subrange(n, n + other_rel.len()) =~= other_rel);
            assert(p.len() == n + rel.len() + tail.len());
            assert(q.len() == n + other_rel.len() + tail.len());
        },
    }
}

} // verus!
