//! What is kept of a file, where copies go, and what is made of messages.

use vstd::prelude::*;

use crate::checksum::strong::{blocks_cover, plain_head};
use crate::io::multiplex::{message_level, message_line, mplex_line, Message};
use crate::log::{prints, LogLevel};
use crate::options::Options;
use crate::path::components;
use crate::laws::words::{can_be_name, path_is_taken_apart, slashed};
use crate::pipeline::local::{
    copied_after, copy_model, is_copied_into, kept_of_dir, kept_of_file, linked_after,
    source_model, CopyModel, EntryFacts, SourceModel,
};
use crate::protocol::constants::MsgCode;
use crate::util::is_one_file;

verus! {

// ---------------------------------------------------------------------------
// Attributes
// ---------------------------------------------------------------------------

/// Each attribute of a file is kept exactly where it was asked for, alone or
/// with all the others.
pub proof fn attributes_are_kept_where_asked_for(o: Options)
    ensures
        o.archive ==> kept_of_file(o).times && kept_of_file(o).perms && kept_of_file(o).owner
            && kept_of_file(o).group,
        !o.archive ==> kept_of_file(o).times == o.times && kept_of_file(o).perms == o.perms
            && kept_of_file(o).owner == o.owner && kept_of_file(o).group == o.group,
{
}

/// Nothing is kept of a directory in a dry run, nor where its times are left
/// out; otherwise its times and permissions are kept as those of a file.
pub proof fn directories_keep_times_and_permissions(o: Options)
    ensures
        o.dry_run || o.omit_dir_times ==> !kept_of_dir(o).times && !kept_of_dir(o).perms,
        !o.dry_run && !o.omit_dir_times ==> kept_of_dir(o).times == kept_of_file(o).times,
        kept_of_dir(o).times ==> kept_of_dir(o).perms == kept_of_file(o).perms,
        kept_of_dir(o).perms ==> kept_of_dir(o).times,
        !kept_of_dir(o).owner && !kept_of_dir(o).group,
{
}

// ---------------------------------------------------------------------------
// Copies
// ---------------------------------------------------------------------------

/// Several sources, a slash behind the destination and a directory there each
/// make the destination a directory to copy into; nothing else does.
pub proof fn several_sources_go_into_a_directory(dest: Seq<char>, sources: nat, is_dir: bool)
    ensures
        sources > 1 ==> is_copied_into(dest, sources, is_dir),
        is_copied_into(dest.push('/'), sources, is_dir),
        is_copied_into(dest, sources, true),
        sources <= 1 && !is_dir && (dest.len() == 0 || dest.last() != '/') ==> !is_copied_into(
            dest,
            sources,
            is_dir,
        ),
{
    assert(dest.push('/').last() == '/');
}

/// A directory becomes the destination where that is no directory yet, and a
/// source of several names goes under the last of them.
pub proof fn sources_go_under_their_last_name(names: Seq<Seq<char>>, recursive: bool)
    requires
        names.len() > 0,
        forall|j: int| 0 <= j < names.len() ==> can_be_name(#[trigger] names[j]),
        names.last() != seq!['.', '.'],
    ensures
        ({
            let src = slashed(names);
            &&& source_model(src, true, true, false) == SourceModel::Dir(None)
            &&& source_model(src, true, true, true) == SourceModel::Dir(Some(names.last()))
            &&& source_model(src, false, recursive, true) == (SourceModel::File {
                name: names.last(),
                into_dir: true,
            })
            &&& source_model(src, false, recursive, false) == (SourceModel::File {
                name: names.last(),
                into_dir: false,
            })
        }),
{
    reveal_strlit("..");
    reveal_strlit("/");
    let src = slashed(names);
    path_is_taken_apart(names);
    assert(components(src).last() == names.last());
    assert(can_be_name(names[names.len() - 1]));
    assert(".."@ =~= seq!['.', '.']);
    lemma_slashed_end(names);
    if names.last() == "/"@ {
        assert(names.last()[0] == '/');
    }
}

proof fn lemma_slashed_end(names: Seq<Seq<char>>)
    requires
        names.len() > 0,
        forall|j: int| 0 <= j < names.len() ==> can_be_name(#[trigger] names[j]),
    ensures
        slashed(names).len() > 0,
        slashed(names).last() == names.last().last(),
        slashed(names).last() != '/',
    decreases names.len(),
{
    assert(can_be_name(names[0]));
    if names.len() > 1 {
        let rest = names.skip(1);
        assert forall|j: int| 0 <= j < rest.len() implies can_be_name(#[trigger] rest[j]) by {
            assert(can_be_name(names[j + 1]));
        }
        lemma_slashed_end(rest);
        assert(rest.last() == names.last());
    } else {
        let n = names[0];
        assert(slashed(names) =~= n);
        assert(n.contains(n.last()));
    }
}

/// A file that is copied is noted as copied, once, and one that is linked as
/// linked; nothing else is noted, and no note is lost.
pub proof fn copies_are_noted(before: Seq<Seq<char>>, a: CopyModel, dest: Seq<char>)
    ensures
        ({
            let copied = copied_after(before, a, dest);
            let linked = linked_after(before, a, dest);
            &&& copied.len() + linked.len() <= 2 * before.len() + 1
            &&& a is Regular || a is Symlink ==> copied == before.push(dest) && linked == before
            &&& a is HardLink ==> linked == before.push(dest) && copied == before
            &&& a is UpToDate || a is DryRun || a is Skip ==> copied == before && linked == before
        }),
{
}

/// A link is made again as a link where it is not in step, and never copied as
/// a file.
pub proof fn links_stay_links(o: Options, f: EntryFacts, links: Map<(u64, u64), Seq<char>>)
    requires
        f.is_symlink,
        !f.is_file,
    ensures
        !o.dry_run && (!f.in_sync || o.checksum) ==> copy_model(o, f, links) is Symlink,
        !(copy_model(o, f, links) is Regular),
        !(copy_model(o, f, links) is HardLink),
{
}

/// Two files are one where both the device and the inode are the same.
pub proof fn one_file_has_one_place(a_dev: u64, a_ino: u64, b_dev: u64, b_ino: u64)
    ensures
        is_one_file(a_dev, a_ino, b_dev, b_ino) == ((a_dev, a_ino) == (b_dev, b_ino)),
{
}

/// The plain header for a file has blocks of 700 bytes that cover it: the last
/// one holds what the others leave, or is whole.
pub proof fn plain_headers_cover_the_file(size: int, csum_length: i32)
    requires
        0 <= size <= i64::MAX - 699,
    ensures
        ({
            let h = plain_head(size, csum_length);
            &&& h.s2length == csum_length
            &&& h.blength == 700
            &&& 0 <= h.remainder < 700
            &&& h.remainder == 0 ==> size == h.count * 700
            &&& h.remainder != 0 ==> size == (h.count - 1) * 700 + h.remainder
        }),
{
    blocks_cover(size, 700);
}

// ---------------------------------------------------------------------------
// Messages
// ---------------------------------------------------------------------------

/// An error of the other side is told as an error and a warning as a warning,
/// so that both are always printed, with their text behind a mark; what the
/// other side only says is told as information.
pub proof fn errors_of_the_other_side_are_told(m: Message)
    ensures
        m.code == MsgCode::Error || m.code == MsgCode::ErrorXfer || m.code == MsgCode::ErrorSocket
            || m.code == MsgCode::ErrorUtf8 ==> message_level(m.code) == LogLevel::Error
            && message_line(m) == "[remote error] "@ + m.text && mplex_line(m) == message_line(m),
        m.code == MsgCode::Warning ==> message_level(m.code) == LogLevel::Warning && message_line(m)
            == "[remote warning] "@ + m.text && mplex_line(m) == message_line(m),
        m.code == MsgCode::Info || m.code == MsgCode::Client ==> message_level(m.code)
            == LogLevel::Info && message_line(m) == "[remote] "@ + m.text && mplex_line(m)
            == message_line(m),
        message_level(m.code) == LogLevel::Error ==> prints(message_level(m.code), 0),
{
}

} // verus!
