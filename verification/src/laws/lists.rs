//! What the two sides settle on, and what a file list holds.

use vstd::prelude::*;
use vstd::utf8::encode_utf8;

use crate::flist::hardlinks::{first_with, link_key, marked};
use crate::flist::laws::{split_path_joins, splits_cleanly};
use crate::flist::send::{
    entry_bytes, entry_flags, flag_bytes, lemma_entry_flags, lemma_shared_len, raw_flags, rest_len,
    shared_len, Preserve,
};
use crate::io::bytes::signed32;
use crate::io::varint::{enc_int, enc_varint, enc_varlong};
use crate::laws::wire::variable_integers_are_short;
use crate::protocol::constants::CsumType;
use crate::protocol::types::{file_type_of, FileEntry, FileType, Stats};
use crate::server::{entry_of, walked, FileMeta, WalkAction};
use crate::session::{common_version, first_common, stats_bytes, HandshakeError};
use crate::setup::{framed, picks_zlib, terms_of};
use crate::text::{decimal, is_white, trim_front, word_len, words};
use crate::uidlist::{local_id, with_name};

verus! {

// ---------------------------------------------------------------------------
// What is settled on
// ---------------------------------------------------------------------------

/// The older of the two versions is spoken, where the other side's is one from
/// 20 to 40; any other is refused, and it is said which.
pub proof fn older_version_is_spoken(remote: u32)
    ensures
        20 <= remote <= 31 ==> common_version(remote) == Ok::<u32, HandshakeError>(remote),
        31 <= remote <= 40 ==> common_version(remote) == Ok::<u32, HandshakeError>(31),
        remote < 20 ==> common_version(remote) == Err::<u32, HandshakeError>(
            HandshakeError::TooOld(remote),
        ),
        remote > 40 ==> common_version(remote) == Err::<u32, HandshakeError>(
            HandshakeError::TooNew(remote),
        ),
{
}

/// Of the words that both sides know, the one is taken that comes first in our
/// list; where there is none, none is taken.
pub proof fn first_common_word_is_taken(ours: Seq<Seq<char>>, theirs: Seq<Seq<char>>)
    ensures
        match first_common(ours, theirs) {
            Some(w) => theirs.contains(w) && exists|i: int|
                0 <= i < ours.len() && #[trigger] ours[i] == w && forall|j: int|
                    0 <= j < i ==> !theirs.contains(#[trigger] ours[j]),
            None => forall|j: int| 0 <= j < ours.len() ==> !theirs.contains(#[trigger] ours[j]),
        },
    decreases ours.len(),
{
    if ours.len() > 0 {
        if theirs.contains(ours[0]) {
            assert(ours[0] == ours[0]);
        } else {
            let rest = ours.skip(1);
            first_common_word_is_taken(rest, theirs);
            match first_common(rest, theirs) {
                Some(w) => {
                    let i = choose|i: int|
                        0 <= i < rest.len() && #[trigger] rest[i] == w && forall|j: int|
                            0 <= j < i ==> !theirs.contains(#[trigger] rest[j]);
                    assert(ours[i + 1] == w);
                    assert forall|j: int| 0 <= j < i + 1 implies !theirs.contains(
                        #[trigger] ours[j],
                    ) by {
                        if j > 0 {
                            assert(ours[j] == rest[j - 1]);
                        }
                    }
                },
                None => {
                    assert forall|j: int| 0 <= j < ours.len() implies !theirs.contains(
                        #[trigger] ours[j],
                    ) by {
                        if j > 0 {
                            assert(ours[j] == rest[j - 1]);
                        }
                    }
                },
            }
        }
    }
}

/// Words with one blank between them.
pub open spec fn spaced(ws: Seq<Seq<char>>) -> Seq<char>
    decreases ws.len(),
{
    if ws.len() == 0 {
        Seq::empty()
    } else if ws.len() == 1 {
        ws[0]
    } else {
        ws[0] + seq![' '] + spaced(ws.skip(1))
    }
}

/// Whether a text is one word.
pub open spec fn is_word(s: Seq<char>) -> bool {
    s.len() > 0 && forall|i: int| 0 <= i < s.len() ==> !is_white(#[trigger] s[i])
}

proof fn lemma_word_end(w: Seq<char>, rest: Seq<char>)
    requires
        forall|i: int| 0 <= i < w.len() ==> !is_white(#[trigger] w[i]),
        rest.len() > 0 ==> is_white(rest[0]),
    ensures
        word_len(w + rest) == w.len(),
    decreases w.len(),
{
    let s = w + rest;
    if w.len() > 0 {
        assert(s[0] == w[0]);
        assert(s.skip(1) =~= w.skip(1) + rest);
        assert forall|i: int| 0 <= i < w.skip(1).len() implies !is_white(#[trigger] w.skip(1)[i]) by {
            assert(!is_white(w[i + 1]));
        }
        lemma_word_end(w.skip(1), rest);
    } else {
        assert(s =~= rest);
    }
}

/// The words of a list are found again.
pub proof fn words_are_found_again(ws: Seq<Seq<char>>)
    requires
        forall|i: int| 0 <= i < ws.len() ==> is_word(#[trigger] ws[i]),
    ensures
        words(spaced(ws)) == ws,
    decreases ws.len(),
{
    let s = spaced(ws);
    if ws.len() == 0 {
        assert(trim_front(s) =~= s);
        assert(words(s) =~= ws);
    } else {
        let w = ws[0];
        assert(is_word(w));
        let more = ws.skip(1);
        assert forall|i: int| 0 <= i < more.len() implies is_word(#[trigger] more[i]) by {
            assert(is_word(ws[i + 1]));
        }
        words_are_found_again(more);
        let rest = if ws.len() == 1 {
            Seq::<char>::empty()
        } else {
            seq![' '] + spaced(more)
        };
        assert(s =~= w + rest);
        assert(!is_white(w[0]));
        assert(s[0] == w[0]);
        assert(trim_front(s) == s);
        lemma_word_end(w, rest);
        assert(s.take(w.len() as int) =~= w);
        assert(s.skip(w.len() as int) =~= rest);
        assert(words(rest) == more) by {
            if ws.len() > 1 {
                assert(rest[0] == ' ');
                assert(rest.skip(1) =~= spaced(more));
                assert(trim_front(rest) == trim_front(spaced(more)));
                lemma_words_trimmed(rest, spaced(more));
            } else {
                assert(more =~= Seq::<Seq<char>>::empty());
                assert(trim_front(rest) =~= rest);
            }
        }
        assert(words(s) =~= seq![w] + more);
        assert(seq![w] + more =~= ws);
    }
}

proof fn lemma_words_trimmed(a: Seq<char>, b: Seq<char>)
    requires
        trim_front(a) == trim_front(b),
    ensures
        words(a) == words(b),
{
}

/// Data is compressed where the other side can do so, whatever else it can do,
/// and never where it did not say that it can.
pub proof fn compression_needs_both_sides(ws: Seq<Seq<char>>)
    requires
        forall|i: int| 0 <= i < ws.len() ==> is_word(#[trigger] ws[i]),
    ensures
        picks_zlib(Some(spaced(ws))) == ws.contains("zlib"@),
        !picks_zlib(None),
{
    reveal_strlit("zlib none");
    reveal_strlit("zlib");
    reveal_strlit("none");
    let ours = seq!["zlib"@, "none"@];
    assert(spaced(ours) =~= "zlib none"@) by {
        reveal_with_fuel(spaced, 3);
        assert(ours.skip(1)[0] == "none"@);
    }
    assert forall|i: int| 0 <= i < ours.len() implies is_word(#[trigger] ours[i]) by {}
    words_are_found_again(ours);
    words_are_found_again(ws);
    reveal_with_fuel(first_common, 3);
    assert(ours.skip(1)[0] == "none"@);
    assert("none"@[0] != "zlib"@[0]);
}

/// The terms of a session follow from its version: the checksum is that of the
/// version, and a file list carries sixteen bytes for each file where files are
/// told apart by checksum, and none otherwise.
pub proof fn terms_follow_from_the_version(protocol: u32, checksum: bool, seed: i32, zlib: bool, flags: u32)
    ensures
        ({
            let t = terms_of(protocol, checksum, seed, zlib, flags);
            &&& t.protocol == protocol && t.seed == seed && t.use_zlib == zlib && t.compat_flags
                == flags
            &&& t.checksum_len == if checksum {
                16int
            } else {
                0
            }
            &&& (t.csum_type == CsumType::Md5) == (protocol >= 30)
            &&& (t.csum_type == CsumType::Md4Old) == (27 <= protocol < 30)
        }),
{
}

/// From protocol 30 on all goes in frames, both ways and on both sides; below
/// it a server's output alone does.
pub proof fn all_goes_in_frames_from_thirty_on(protocol: u32, am_server: bool)
    ensures
        protocol >= 30 ==> framed(protocol, am_server) == (true, true),
        protocol < 30 ==> framed(protocol, am_server) == (false, am_server),
{
}

/// A sender reports what it read before what it wrote, and then the size of all
/// files.
pub proof fn report_starts_with_what_was_read(s: Stats, protocol: u32)
    ensures
        ({
            let b = stats_bytes(s, protocol);
            let r = enc_varlong(s.total_read, 3);
            let w = enc_varlong(s.total_written, 3);
            let z = enc_varlong(s.total_size, 3);
            let front = r + w + z;
            &&& b.len() >= front.len()
            &&& b.take(front.len() as int) == front
            &&& protocol < 29 ==> b == front
        }),
{
    let b = stats_bytes(s, protocol);
    let front = enc_varlong(s.total_read, 3) + enc_varlong(s.total_written, 3) + enc_varlong(
        s.total_size,
        3,
    );
    assert(b.take(front.len() as int) =~= front);
    if protocol < 29 {
        assert(b =~= front);
    }
}

// ---------------------------------------------------------------------------
// Entries
// ---------------------------------------------------------------------------

/// The kind of a file is told by the upper bits of its mode alone.
pub proof fn kind_is_told_by_the_mode(mode: u32)
    ensures
        ({
            let k = mode / 0x1000 % 16;
            &&& (file_type_of(mode) == FileType::Dir) == (k == 4)
            &&& (file_type_of(mode) == FileType::Symlink) == (k == 10)
            &&& (file_type_of(mode) == FileType::Device) == (k == 2 || k == 6)
            &&& k == 8 ==> file_type_of(mode) == FileType::Regular
            &&& k == 1 || k == 12 ==> file_type_of(mode) == FileType::Special
        }),
{
}

/// The entry of a file says of it what the system says, under its path.
pub proof fn entry_says_what_the_system_says(rel: Seq<char>, m: FileMeta)
    requires
        splits_cleanly(rel),
    ensures
        ({
            let f = entry_of(rel, m);
            &&& f.path() == rel
            &&& m.len <= i64::MAX ==> f.size == m.len
            &&& f.modtime == m.mtime && f.mode == m.mode && f.uid == m.uid && f.gid == m.gid
            &&& f.dev == m.dev && f.ino == m.ino
            &&& !f.name.contains('/')
        }),
{
    let f = entry_of(rel, m);
    split_path_joins(rel, f);
    crate::protocol::types::lemma_last_slash(rel);
}

/// What is excluded is never taken and never looked into; what is not excluded
/// is always taken; and only a directory, in a recursive transfer, is looked
/// into.
pub proof fn excluded_entries_are_passed_over(
    excluded: bool,
    is_dir: bool,
    is_symlink: bool,
    recursive: bool,
)
    ensures
        ({
            let a = walked(excluded, is_dir, is_symlink, recursive);
            &&& excluded == (a == WalkAction::Skip)
            &&& a == WalkAction::AddAndDescend ==> is_dir && recursive && !is_symlink
            &&& is_dir && recursive && !is_symlink && !excluded ==> a == WalkAction::AddAndDescend
            &&& (a == WalkAction::AddLink) == (is_symlink && !excluded)
        }),
{
}

/// The first entry of a list goes whole: a byte of flags, the length of the
/// path and the path, the size, the time, the mode, the owner and the group.
pub proof fn first_entry_goes_whole(f: FileEntry)
    requires
        f.file_type() == FileType::Regular,
        f.mod_nsec == 0,
        encode_utf8(f.path()).len() <= 255,
    ensures
        entry_bytes(
            None,
            f,
            31,
            0,
            (Preserve { uid: true, gid: true, times: true, devices: false }),
            true,
        ) == seq![4u8] + seq![encode_utf8(f.path()).len() as u8] + encode_utf8(f.path())
            + enc_varlong(f.size, 3) + enc_varlong(f.modtime, 4) + enc_int(signed32(f.mode as nat))
            + enc_varint(signed32(f.uid as nat)) + enc_varint(signed32(f.gid as nat)),
{
    let p = Preserve { uid: true, gid: true, times: true, devices: false };
    let path = encode_utf8(f.path());
    lemma_entry_flags(None, f, 31, p, true);
    assert(shared_len(None, f) == 0);
    assert(raw_flags(None, f, 31, p) == 0);
    let x = entry_flags(None, f, 31, p, true);
    assert(x == 4);
    variable_integers_are_short(4);
    assert(signed32(4) == 4);
    assert(flag_bytes(x, true, 31) == seq![4u8]);
    assert(path.skip(0) =~= path);
    let name = crate::flist::send::name_bytes(None, f, x);
    assert(name =~= seq![path.len() as u8] + path);
    let time = crate::flist::send::time_bytes(f, x, 31);
    assert(time =~= enc_varlong(f.size, 3) + enc_varlong(f.modtime, 4));
    let owner = crate::flist::send::owner_bytes(f, x, 31, p);
    assert(owner =~= enc_int(signed32(f.mode as nat)) + enc_varint(signed32(f.uid as nat))
        + enc_varint(signed32(f.gid as nat)));
    let special = crate::flist::send::special_bytes(f, 31, 0, p);
    assert(special =~= Seq::<u8>::empty());
    assert(entry_bytes(None, f, 31, 0, p, true) =~= seq![4u8] + seq![path.len() as u8] + path
        + enc_varlong(f.size, 3) + enc_varlong(f.modtime, 4) + enc_int(signed32(f.mode as nat))
        + enc_varint(signed32(f.uid as nat)) + enc_varint(signed32(f.gid as nat)));
}

/// What an entry shares with the one before it is left out: of the path, how
/// much is shared goes in one byte in front of the rest, and mode, time, owner
/// and group do not go at all where they are the same.
pub proof fn shared_fields_are_left_out(before: FileEntry, f: FileEntry)
    requires
        f.file_type() == FileType::Regular,
        f.mod_nsec == 0,
        f.mode == before.mode,
        f.modtime == before.modtime,
        f.uid == before.uid,
        f.gid == before.gid,
        encode_utf8(f.path()).len() <= 255,
        shared_len(Some(before), f) > 0,
    ensures
        ({
            let path = encode_utf8(f.path());
            let k = shared_len(Some(before), f);
            &&& k <= path.len()
            &&& path.take(k as int) == encode_utf8(before.path()).take(k as int)
            &&& entry_bytes(
                Some(before),
                f,
                31,
                0,
                (Preserve { uid: true, gid: true, times: true, devices: false }),
                true,
            ) == enc_varint(0xba) + seq![k as u8] + seq![(path.len() - k) as u8] + path.skip(
                k as int,
            ) + enc_varlong(f.size, 3)
        }),
{
    let p = Preserve { uid: true, gid: true, times: true, devices: false };
    let path = encode_utf8(f.path());
    let prev = Some(before);
    let k = shared_len(prev, f);
    lemma_shared_len(prev, f);
    lemma_entry_flags(prev, f, 31, p, true);
    assert(raw_flags(prev, f, 31, p) == 0x20 + 2 + 0x80 + 8 + 0x10);
    let x = entry_flags(prev, f, 31, p, true);
    assert(x == 0xba);
    assert(signed32(0xba) == 0xba);
    let name = crate::flist::send::name_bytes(prev, f, x);
    assert(rest_len(prev, f) == path.len() - k);
    assert(name =~= seq![k as u8] + seq![(path.len() - k) as u8] + path.skip(k as int));
    let time = crate::flist::send::time_bytes(f, x, 31);
    assert(time =~= enc_varlong(f.size, 3));
    let owner = crate::flist::send::owner_bytes(f, x, 31, p);
    assert(owner =~= Seq::<u8>::empty());
    let special = crate::flist::send::special_bytes(f, 31, 0, p);
    assert(special =~= Seq::<u8>::empty());
    assert(entry_bytes(prev, f, 31, 0, p, true) =~= enc_varint(0xba) + seq![k as u8] + seq![
        (path.len() - k) as u8,
    ] + path.skip(k as int) + enc_varlong(f.size, 3));
}

// ---------------------------------------------------------------------------
// Names of one file
// ---------------------------------------------------------------------------

proof fn lemma_first_with(fs: Seq<FileEntry>, key: (u64, u64), k: nat)
    ensures
        match first_with(fs, key, k) {
            Some(i) => k <= i < fs.len() && link_key(fs[i]) == Some(key) && forall|j: int|
                k <= j < i ==> link_key(#[trigger] fs[j]) != Some(key),
            None => forall|j: int| k <= j < fs.len() ==> link_key(#[trigger] fs[j]) != Some(key),
        },
    decreases fs.len() - k,
{
    if k < fs.len() && link_key(fs[k as int]) != Some(key) {
        lemma_first_with(fs, key, k + 1);
    }
}

/// Two entries count as names of one file exactly where both are regular files
/// with the same device and the same inode, and the inode is known.
pub proof fn one_file_has_one_inode(f: FileEntry, g: FileEntry)
    ensures
        (link_key(f) is Some && link_key(f) == link_key(g)) == (f.file_type() == FileType::Regular
            && g.file_type() == FileType::Regular && f.ino != 0 && f.ino == g.ino && f.dev == g.dev),
{
}

/// A later name of a file carries the index of the first name of that file, and
/// no other.
pub proof fn later_names_point_at_the_first(fs: Seq<FileEntry>, start: i32, i: int, w: int)
    requires
        0 <= i < w < fs.len(),
        link_key(fs[w]) is Some,
        link_key(fs[i]) == link_key(fs[w]),
        forall|j: int| 0 <= j < i ==> link_key(#[trigger] fs[j]) != link_key(fs[w]),
        0 <= start,
        start + fs.len() <= i32::MAX,
    ensures
        ({
            let f = marked(fs, start, w, fs.len() as int);
            &&& f.hard_link_first_ndx == start + i
            &&& f.flags == fs[w].flags | 0x20
            &&& f.path() == fs[w].path()
        }),
{
    let key = link_key(fs[w])->0;
    lemma_first_with(fs, key, 0);
}

/// The first name of a file that has more of them is marked as the first, and a
/// file with one name is not marked at all.
pub proof fn first_names_are_marked(fs: Seq<FileEntry>, start: i32, i: int)
    requires
        0 <= i < fs.len(),
        forall|j: int| 0 <= j < i ==> link_key(#[trigger] fs[j]) != link_key(fs[i]),
    ensures
        link_key(fs[i]) is Some && (exists|w: int|
            i < w < fs.len() && link_key(#[trigger] fs[w]) == link_key(fs[i])) ==> marked(
            fs,
            start,
            i,
            fs.len() as int,
        ).flags == fs[i].flags | (0x20u16 | 0x40u16),
        link_key(fs[i]) is None || (forall|w: int|
            i < w < fs.len() ==> link_key(#[trigger] fs[w]) != link_key(fs[i])) ==> marked(
            fs,
            start,
            i,
            fs.len() as int,
        ) == fs[i],
{
    if link_key(fs[i]) is Some {
        let key = link_key(fs[i])->0;
        lemma_first_with(fs, key, 0);
    }
}

// ---------------------------------------------------------------------------
// Names of users and groups
// ---------------------------------------------------------------------------

/// A number keeps the name that it got first; a new one gets the name that was
/// found for it, or the number itself in digits; and other numbers keep theirs.
pub proof fn numbers_keep_their_names(
    m: Map<u32, Seq<char>>,
    id: u32,
    other: u32,
    found: Option<Seq<char>>,
)
    ensures
        with_name(m, id, found).dom().contains(id),
        m.dom().contains(id) ==> with_name(m, id, found) == m,
        !m.dom().contains(id) && found is Some ==> with_name(m, id, found)[id] == found->0,
        !m.dom().contains(id) && found is None ==> with_name(m, id, found)[id] == decimal(id as nat),
        other != id ==> with_name(m, id, found).dom().contains(other) == m.dom().contains(other)
            && with_name(m, id, found)[other] == m[other],
        local_id(None) == 0,
        local_id(Some(other)) == other,
{
}

} // verus!
