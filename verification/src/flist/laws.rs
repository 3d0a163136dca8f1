//! What a file list keeps on its way over the wire.

use vstd::prelude::*;
use vstd::utf8::encode_utf8;

use crate::flags::flag_set;
use crate::flist::recv::{
    last_of, parse_end, parse_entry, parse_flags, parse_id, parse_list, parse_name, parse_owner,
    parse_rdev, parse_sum, parse_target, parse_times, received_list,
};
use crate::flist::send::{
    end_bytes, entries_bytes, entry_bytes, entry_flags, fitted, flag_bytes, has_rdev, id_bytes,
    lemma_entry_flags, lemma_shared_len, link_text, list_bytes, name_bytes, owner_bytes, prev_path,
    rest_len, sendable, shared_len, short_time, skips_gid, skips_time, skips_uid,
    special_bytes, time_bytes, Preserve,
};
use crate::flist::sort::{entry_less, is_sort_order, is_sorted, sort_key, sorting_a_sorted_list};
use crate::io::bytes::{bits32, le_bytes, signed32, WireError};
use crate::io::parse::{
    lemma_parse_byte, lemma_parse_bytes, lemma_parse_int, lemma_parse_varint, lemma_parse_varlong,
};
use crate::io::varint::{enc_int, enc_shortint, enc_varint, enc_varlong};
use crate::protocol::constants::{
    CF_INC_RECURSE, CF_VARINT_FLIST_FLAGS, XMIT_EXTENDED_FLAGS, XMIT_LONG_NAME, XMIT_MOD_NSEC,
    XMIT_SAME_GID, XMIT_SAME_MODE, XMIT_SAME_NAME, XMIT_SAME_TIME, XMIT_SAME_UID,
};
use crate::protocol::types::{
    base_part, dir_part, last_slash, lemma_last_slash, FileEntry, FileType, NO_HARD_LINK,
};
use crate::text::text_round_trip;

verus! {

/// What the receiver makes of an entry, given what it made of the one before.
pub open spec fn received(
    before: Option<FileEntry>,
    f: FileEntry,
    protocol: u32,
    checksum_len: nat,
    p: Preserve,
) -> FileEntry {
    FileEntry {
        name: base_part(f.path()),
        dirname: dir_part(f.path()),
        modtime: if p.times {
            if protocol >= 30 {
                f.modtime
            } else {
                short_time(f.modtime) as i64
            }
        } else {
            match before {
                Some(q) => q.modtime,
                None => 0,
            }
        },
        mod_nsec: if protocol >= 31 {
            f.mod_nsec
        } else {
            0
        },
        size: f.size,
        mode: f.mode,
        flags: 0,
        uid: if p.uid {
            f.uid
        } else {
            match before {
                Some(q) => q.uid,
                None => 0,
            }
        },
        gid: if p.gid {
            f.gid
        } else {
            match before {
                Some(q) => q.gid,
                None => 0,
            }
        },
        link_target: if f.file_type() == FileType::Symlink {
            Some(link_text(f))
        } else {
            None
        },
        rdev_major: if has_rdev(f.file_type(), protocol) {
            f.rdev_major
        } else {
            match before {
                Some(q) => q.rdev_major,
                None => 0,
            }
        },
        rdev_minor: if has_rdev(f.file_type(), protocol) {
            f.rdev_minor
        } else {
            match before {
                Some(q) => q.rdev_minor,
                None => 0,
            }
        },
        hard_link_first_ndx: NO_HARD_LINK,
        dev: 0,
        ino: 0,
        checksum: if checksum_len > 0 && f.file_type() == FileType::Regular {
            Some(fitted(f.checksum, checksum_len))
        } else {
            None
        },
    }
}

/// What the receiver makes of entries that come one behind the other.
pub open spec fn received_all(
    before: Option<FileEntry>,
    fs: Seq<FileEntry>,
    protocol: u32,
    checksum_len: nat,
    p: Preserve,
) -> Seq<FileEntry>
    decreases fs.len(),
{
    if fs.len() == 0 {
        Seq::empty()
    } else {
        let g = received(before, fs[0], protocol, checksum_len, p);
        seq![g] + received_all(Some(g), fs.skip(1), protocol, checksum_len, p)
    }
}

/// Whether a path is more than a slash and a name: such a path would lose its
/// slash when it is split.
pub open spec fn splits_cleanly(path: Seq<char>) -> bool {
    last_slash(path) != Some(0int)
}

/// Whether an entry survives the wire.
pub open spec fn travels(f: FileEntry, protocol: u32, p: Preserve) -> bool {
    &&& sendable(f)
    &&& splits_cleanly(f.path())
    &&& p.devices || !has_rdev(f.file_type(), protocol)
}

/// Whether every entry of a list survives the wire.
pub open spec fn all_travel(fs: Seq<FileEntry>, protocol: u32, p: Preserve) -> bool {
    forall|i: int| 0 <= i < fs.len() ==> travels(#[trigger] fs[i], protocol, p)
}

/// Whether what the receiver knows of the entry before is what the sender
/// relies on.
spec fn agree(sent: Option<FileEntry>, got: Option<FileEntry>, protocol: u32, p: Preserve) -> bool {
    match (sent, got) {
        (None, None) => true,
        (Some(q), Some(g)) => {
            &&& g.path() == q.path()
            &&& g.mode == q.mode
            &&& p.times ==> g.modtime == if protocol >= 30 {
                q.modtime
            } else {
                short_time(q.modtime) as i64
            }
            &&& p.uid ==> g.uid == q.uid
            &&& p.gid ==> g.gid == q.gid
        },
        _ => false,
    }
}

// ---------------------------------------------------------------------------
// One entry
// ---------------------------------------------------------------------------

/// Splitting a path and joining the parts again gives the path.
pub proof fn split_path_joins(path: Seq<char>, f: FileEntry)
    requires
        splits_cleanly(path),
        f.name == base_part(path),
        f.dirname == dir_part(path),
    ensures
        f.path() == path,
{
    lemma_last_slash(path);
    match last_slash(path) {
        Some(i) => {
            assert(path.take(i) + seq!['/'] + path.skip(i + 1) =~= path);
        },
        None => {},
    }
}

proof fn lemma_flags_travel(x: u32, varint_flags: bool, protocol: u32, rest: Seq<u8>)
    requires
        x < 0x4000,
        !varint_flags && x >= 256 ==> protocol >= 28 && flag_set(x, XMIT_EXTENDED_FLAGS) && x
            >= 0x2000,
        x != 0,
    ensures
        parse_flags(flag_bytes(x, varint_flags, protocol) + rest, varint_flags, protocol) == Ok::<
            (u32, Seq<u8>),
            WireError,
        >((x, rest)),
{
    let buf = flag_bytes(x, varint_flags, protocol) + rest;
    if varint_flags {
        let v = signed32(x as nat);
        lemma_parse_varint(v, rest);
        assert(bits32(v) == x as nat);
    } else if x >= 256 || (protocol >= 28 && flag_set(x, XMIT_EXTENDED_FLAGS)) {
        let low = (x % 256) as u8;
        let high = (x / 256) as u8;
        reveal_with_fuel(le_bytes, 3);
        assert(enc_shortint(x as u16) =~= seq![low, high]);
        assert(buf =~= seq![low] + (seq![high] + rest));
        lemma_parse_byte(low, seq![high] + rest);
        lemma_parse_byte(high, rest);
    } else {
        lemma_parse_byte(x as u8, rest);
    }
}

proof fn lemma_name_travels(prev: Option<FileEntry>, f: FileEntry, x: u32, rest: Seq<u8>)
    requires
        sendable(f),
        flag_set(x, XMIT_SAME_NAME) == (shared_len(prev, f) > 0),
        flag_set(x, XMIT_LONG_NAME) == (rest_len(prev, f) > 255),
    ensures
        parse_name(name_bytes(prev, f, x) + rest, x, prev_path(prev)) == Ok::<
            (Seq<u8>, Seq<u8>),
            WireError,
        >((encode_utf8(f.path()), rest)),
{
    lemma_shared_len(prev, f);
    let same = shared_len(prev, f);
    let n = rest_len(prev, f);
    let name = encode_utf8(f.path());
    let body = name.skip(same as int);
    let b1 = if flag_set(x, XMIT_SAME_NAME) {
        seq![same as u8]
    } else {
        Seq::empty()
    };
    let b2 = if flag_set(x, XMIT_LONG_NAME) {
        enc_varint(n as i32)
    } else {
        seq![n as u8]
    };
    let buf = name_bytes(prev, f, x) + rest;
    let r1 = b2 + (body + rest);
    assert(buf =~= b1 + r1);
    if flag_set(x, XMIT_SAME_NAME) {
        lemma_parse_byte(same as u8, r1);
    } else {
        assert(buf =~= r1);
    }
    if flag_set(x, XMIT_LONG_NAME) {
        lemma_parse_varint(n as i32, body + rest);
    } else {
        lemma_parse_byte(n as u8, body + rest);
    }
    lemma_parse_bytes(body, rest);
    assert(prev_path(prev).take(same as int) + body =~= name);
}

proof fn lemma_times_travel(
    prev: Option<FileEntry>,
    got: Option<FileEntry>,
    f: FileEntry,
    x: u32,
    protocol: u32,
    p: Preserve,
    rest: Seq<u8>,
)
    requires
        agree(prev, got, protocol, p),
        flag_set(x, XMIT_SAME_TIME) == skips_time(prev, f, p),
        flag_set(x, XMIT_MOD_NSEC) == (f.mod_nsec != 0 && protocol >= 31),
    ensures
        ({
            let g = received(got, f, protocol, 0, p);
            parse_times(time_bytes(f, x, protocol) + rest, x, got, protocol) == Ok::<
                ((i64, i64, u32), Seq<u8>),
                WireError,
            >(((g.size, g.modtime, g.mod_nsec), rest))
        }),
{
    let b1 = enc_varlong(f.size, 3);
    let b2 = if flag_set(x, XMIT_SAME_TIME) {
        Seq::empty()
    } else if protocol >= 30 {
        enc_varlong(f.modtime, 4)
    } else {
        enc_int(short_time(f.modtime))
    };
    let ns = signed32(f.mod_nsec as nat);
    let b3 = if flag_set(x, XMIT_MOD_NSEC) {
        enc_varint(ns)
    } else {
        Seq::empty()
    };
    let buf = time_bytes(f, x, protocol) + rest;
    let r1 = b2 + (b3 + rest);
    let r2 = b3 + rest;
    assert(buf =~= b1 + r1);
    lemma_parse_varlong(f.size, 3, r1);
    if flag_set(x, XMIT_SAME_TIME) {
        assert(r1 =~= r2);
    } else if protocol >= 30 {
        lemma_parse_varlong(f.modtime, 4, r2);
    } else {
        lemma_parse_int(short_time(f.modtime), r2);
    }
    if flag_set(x, XMIT_MOD_NSEC) {
        lemma_parse_varint(ns, rest);
        assert(bits32(ns) == f.mod_nsec as nat);
    } else {
        assert(r2 =~= rest);
    }
}

proof fn lemma_id_travels(id: u32, before: u32, protocol: u32, rest: Seq<u8>)
    ensures
        parse_id(id_bytes(id, protocol) + rest, false, before, false, protocol) == Ok::<
            (u32, Seq<u8>),
            WireError,
        >((id, rest)),
{
    let v = signed32(id as nat);
    assert(bits32(v) == id as nat);
    if protocol >= 30 {
        lemma_parse_varint(v, rest);
    } else {
        lemma_parse_int(v, rest);
    }
}

proof fn lemma_owner_travels(
    prev: Option<FileEntry>,
    got: Option<FileEntry>,
    f: FileEntry,
    x: u32,
    protocol: u32,
    p: Preserve,
    rest: Seq<u8>,
)
    requires
        agree(prev, got, protocol, p),
        flag_set(x, XMIT_SAME_MODE) == (prev matches Some(q) && q.mode == f.mode),
        flag_set(x, XMIT_SAME_UID) == skips_uid(prev, f, p),
        flag_set(x, XMIT_SAME_GID) == skips_gid(prev, f, p),
        !flag_set(x, 0x400),
        !flag_set(x, 0x800),
    ensures
        ({
            let g = received(got, f, protocol, 0, p);
            parse_owner(owner_bytes(f, x, protocol, p) + rest, x, got, protocol) == Ok::<
                ((u32, u32, u32), Seq<u8>),
                WireError,
            >(((g.mode, g.uid, g.gid), rest))
        }),
{
    let m = signed32(f.mode as nat);
    let b1 = if flag_set(x, XMIT_SAME_MODE) {
        Seq::empty()
    } else {
        enc_int(m)
    };
    let b2 = if p.uid && !flag_set(x, XMIT_SAME_UID) {
        id_bytes(f.uid, protocol)
    } else {
        Seq::empty()
    };
    let b3 = if p.gid && !flag_set(x, XMIT_SAME_GID) {
        id_bytes(f.gid, protocol)
    } else {
        Seq::empty()
    };
    let buf = owner_bytes(f, x, protocol, p) + rest;
    let r1 = b2 + (b3 + rest);
    let r2 = b3 + rest;
    assert(buf =~= b1 + r1);
    if flag_set(x, XMIT_SAME_MODE) {
        assert(buf =~= r1);
    } else {
        lemma_parse_int(m, r1);
        assert(bits32(m) == f.mode as nat);
    }
    if flag_set(x, XMIT_SAME_UID) {
        assert(r1 =~= r2);
    } else {
        lemma_id_travels(
            f.uid,
            match got {
                Some(q) => q.uid,
                None => 0,
            },
            protocol,
            r2,
        );
    }
    if flag_set(x, XMIT_SAME_GID) {
        assert(r2 =~= rest);
    } else {
        lemma_id_travels(
            f.gid,
            match got {
                Some(q) => q.gid,
                None => 0,
            },
            protocol,
            rest,
        );
    }
}

proof fn lemma_special_travels(
    got: Option<FileEntry>,
    f: FileEntry,
    protocol: u32,
    checksum_len: nat,
    p: Preserve,
    rest: Seq<u8>,
)
    requires
        sendable(f),
        p.devices || !has_rdev(f.file_type(), protocol),
    ensures
        ({
            let g = received(got, f, protocol, checksum_len, p);
            let t = f.file_type();
            &&& parse_rdev(special_bytes(f, protocol, checksum_len, p) + rest, t, got, protocol)
                matches Ok((rdev, r1)) && rdev == (g.rdev_major, g.rdev_minor) && (parse_target(
                r1,
                t,
            ) matches Ok((target, r2)) && target == g.link_target && parse_sum(r2, t, checksum_len)
                == Ok::<(Option<Seq<u8>>, Seq<u8>), WireError>((g.checksum, rest)))
        }),
{
    let t = f.file_type();
    let major = signed32(f.rdev_major as nat);
    let target = encode_utf8(link_text(f));
    let b1 = if p.devices && has_rdev(t, protocol) {
        enc_varint(major) + id_bytes(f.rdev_minor, protocol)
    } else {
        Seq::empty()
    };
    let b2 = if t == FileType::Symlink {
        enc_varint(target.len() as i32) + target
    } else {
        Seq::empty()
    };
    let sum = fitted(f.checksum, checksum_len);
    let b3 = if checksum_len > 0 && t == FileType::Regular {
        sum
    } else {
        Seq::empty()
    };
    let buf = special_bytes(f, protocol, checksum_len, p) + rest;
    let r1 = b2 + (b3 + rest);
    let r2 = b3 + rest;
    assert(buf =~= b1 + r1);
    if has_rdev(t, protocol) {
        assert(buf =~= enc_varint(major) + (id_bytes(f.rdev_minor, protocol) + r1));
        lemma_parse_varint(major, id_bytes(f.rdev_minor, protocol) + r1);
        lemma_id_travels(f.rdev_minor, 0, protocol, r1);
        assert(bits32(major) == f.rdev_major as nat);
    } else {
        assert(buf =~= r1);
    }
    if t == FileType::Symlink {
        assert(r1 =~= enc_varint(target.len() as i32) + (target + r2));
        lemma_parse_varint(target.len() as i32, target + r2);
        lemma_parse_bytes(target, r2);
        text_round_trip(link_text(f));
    } else {
        assert(r1 =~= r2);
    }
    if checksum_len > 0 && t == FileType::Regular {
        lemma_parse_bytes(sum, rest);
    } else {
        assert(r2 =~= rest);
    }
}

/// An entry that was sent is received with the fields that the transfer
/// keeps, and nothing behind it is touched.
#[verifier::spinoff_prover]
#[verifier::rlimit(60)]
proof fn lemma_entry_travels(
    prev: Option<FileEntry>,
    got: Option<FileEntry>,
    f: FileEntry,
    protocol: u32,
    checksum_len: nat,
    p: Preserve,
    varint_flags: bool,
    so_far: Seq<FileEntry>,
    rest: Seq<u8>,
)
    requires
        agree(prev, got, protocol, p),
        travels(f, protocol, p),
    ensures
        ({
            let x = entry_flags(prev, f, protocol, p, varint_flags);
            let g = received(got, f, protocol, checksum_len, p);
            let buf = entry_bytes(prev, f, protocol, checksum_len, p, varint_flags) + rest;
            &&& x != 0
            &&& parse_flags(buf, varint_flags, protocol) matches Ok((y, r1)) && y == x
                && parse_entry(r1, x, got, protocol, checksum_len, so_far, 0) == Ok::<
                (FileEntry, Seq<u8>),
                WireError,
            >((g, rest))
            &&& buf.len() > rest.len()
            &&& agree(Some(f), Some(g), protocol, p)
        }),
{
    let x = entry_flags(prev, f, protocol, p, varint_flags);
    let g = received(got, f, protocol, checksum_len, p);
    lemma_entry_flags(prev, f, protocol, p, varint_flags);
    let a = flag_bytes(x, varint_flags, protocol);
    let b = name_bytes(prev, f, x);
    let c = time_bytes(f, x, protocol);
    let d = owner_bytes(f, x, protocol, p);
    let e = special_bytes(f, protocol, checksum_len, p);
    let buf = entry_bytes(prev, f, protocol, checksum_len, p, varint_flags) + rest;
    let r5 = e + rest;
    let r4 = d + r5;
    let r3 = c + r4;
    let r2 = b + r3;
    assert(buf =~= a + r2);
    lemma_flags_travel(x, varint_flags, protocol, r2);
    assert(prev_path(got) == prev_path(prev));
    lemma_name_travels(prev, f, x, r3);
    text_round_trip(f.path());
    lemma_times_travel(prev, got, f, x, protocol, p, r4);
    lemma_owner_travels(prev, got, f, x, protocol, p, r5);
    lemma_special_travels(got, f, protocol, checksum_len, p, rest);
    split_path_joins(f.path(), g);
    assert(b.len() > 0) by {
        lemma_shared_len(prev, f);
        crate::io::varint::lemma_varint_len(rest_len(prev, f) as i32);
    }
}

// ---------------------------------------------------------------------------
// The whole list
// ---------------------------------------------------------------------------

/// Whether `end` is read as the end of a list, and `rest` is left behind it.
spec fn ends_list(
    end: Seq<u8>,
    protocol: u32,
    uid: bool,
    gid: bool,
    compat_flags: u32,
    rest: Seq<u8>,
) -> bool {
    parse_flags(end, flag_set(compat_flags, CF_VARINT_FLIST_FLAGS), protocol) matches Ok((x, r1))
        && x == 0 && parse_end(r1, protocol, uid, gid, compat_flags) == Ok::<
        ((), Seq<u8>),
        WireError,
    >(((), rest))
}

/// The tables of users and groups at the end of a list.
pub open spec fn id_tables(protocol: u32, p: Preserve, compat_flags: u32) -> Seq<u8> {
    if protocol < 30 || flag_set(compat_flags, CF_INC_RECURSE) {
        Seq::empty()
    } else {
        (if p.uid {
            enc_varint(0)
        } else {
            Seq::empty()
        }) + (if p.gid {
            enc_varint(0)
        } else {
            Seq::empty()
        })
    }
}

proof fn lemma_end_travels(protocol: u32, io_error: i32, p: Preserve, compat_flags: u32, rest: Seq<u8>)
    ensures
        ({
            let end = end_bytes(protocol, io_error, p, compat_flags) + rest;
            let tables = id_tables(protocol, p, compat_flags);
            &&& ends_list(end, protocol, p.uid, p.gid, compat_flags, rest)
            &&& ends_list(end, protocol, false, false, compat_flags, tables + rest)
        }),
{
    let varint_flags = flag_set(compat_flags, CF_VARINT_FLIST_FLAGS);
    let inc = flag_set(compat_flags, CF_INC_RECURSE);
    let u: Seq<u8> = if p.uid {
        enc_varint(0)
    } else {
        Seq::empty()
    };
    let g: Seq<u8> = if p.gid {
        enc_varint(0)
    } else {
        Seq::empty()
    };
    let tail: Seq<u8> = if protocol < 30 {
        enc_int(io_error)
    } else if !inc {
        u + g
    } else {
        Seq::empty()
    };
    let buf = end_bytes(protocol, io_error, p, compat_flags) + rest;
    let r1 = tail + rest;
    if varint_flags {
        assert(buf =~= enc_varint(0) + (enc_varint(io_error) + r1));
        lemma_parse_varint(0, enc_varint(io_error) + r1);
        lemma_parse_varint(io_error, r1);
    } else if protocol >= 31 || (protocol >= 28 && io_error != 0) {
        reveal_with_fuel(le_bytes, 3);
        assert(enc_shortint(0x1004) =~= seq![4u8, 16u8]);
        assert(buf =~= seq![4u8] + (seq![16u8] + (enc_varint(io_error) + r1)));
        lemma_parse_byte(4, seq![16u8] + (enc_varint(io_error) + r1));
        lemma_parse_byte(16, enc_varint(io_error) + r1);
        lemma_parse_varint(io_error, r1);
        assert(flag_set(4, XMIT_EXTENDED_FLAGS));
    } else {
        assert(buf =~= seq![0u8] + r1);
        lemma_parse_byte(0, r1);
        assert(!flag_set(0, XMIT_EXTENDED_FLAGS));
    }
    if protocol < 30 {
        lemma_parse_int(io_error, rest);
    } else if !inc {
        let r2 = g + rest;
        assert(r1 =~= u + r2);
        if p.uid {
            lemma_parse_varint(0, r2);
        } else {
            assert(r1 =~= r2);
        }
        if p.gid {
            lemma_parse_varint(0, rest);
        } else {
            assert(r2 =~= rest);
        }
        assert(r1 =~= id_tables(protocol, p, compat_flags) + rest);
    } else {
        assert(r1 =~= rest);
    }
    if protocol < 30 || inc {
        assert(id_tables(protocol, p, compat_flags) + rest =~= rest);
    }
}

#[verifier::spinoff_prover]
#[verifier::rlimit(60)]
proof fn lemma_entries_travel(
    prev: Option<FileEntry>,
    fs: Seq<FileEntry>,
    so_far: Seq<FileEntry>,
    protocol: u32,
    checksum_len: nat,
    p: Preserve,
    uid: bool,
    gid: bool,
    compat_flags: u32,
    end: Seq<u8>,
    rest: Seq<u8>,
)
    requires
        agree(prev, last_of(so_far), protocol, p),
        all_travel(fs, protocol, p),
        ends_list(end, protocol, uid, gid, compat_flags, rest),
    ensures
        parse_list(
            entries_bytes(
                prev,
                fs,
                protocol,
                checksum_len,
                p,
                flag_set(compat_flags, CF_VARINT_FLIST_FLAGS),
            ) + end,
            so_far,
            protocol,
            checksum_len,
            uid,
            gid,
            compat_flags,
        ) == Ok::<(Seq<FileEntry>, Seq<u8>), WireError>(
            (so_far + received_all(last_of(so_far), fs, protocol, checksum_len, p), rest),
        ),
    decreases fs.len(),
{
    let varint_flags = flag_set(compat_flags, CF_VARINT_FLIST_FLAGS);
    let buf = entries_bytes(prev, fs, protocol, checksum_len, p, varint_flags) + end;
    let got = last_of(so_far);
    if fs.len() == 0 {
        assert(buf =~= end);
        assert(so_far + received_all(got, fs, protocol, checksum_len, p) =~= so_far);
    } else {
        let f = fs[0];
        let g = received(got, f, protocol, checksum_len, p);
        let more = entries_bytes(
            Some(f),
            fs.skip(1),
            protocol,
            checksum_len,
            p,
            varint_flags,
        ) + end;
        assert(buf =~= entry_bytes(prev, f, protocol, checksum_len, p, varint_flags) + more);
        lemma_entry_travels(
            prev,
            got,
            f,
            protocol,
            checksum_len,
            p,
            varint_flags,
            so_far,
            more,
        );
        let next = so_far.push(g);
        assert(last_of(next) == Some(g));
        lemma_entries_travel(
            Some(f),
            fs.skip(1),
            next,
            protocol,
            checksum_len,
            p,
            uid,
            gid,
            compat_flags,
            end,
            rest,
        );
        assert(so_far + received_all(got, fs, protocol, checksum_len, p) =~= next + received_all(
            Some(g),
            fs.skip(1),
            protocol,
            checksum_len,
            p,
        ));
    }
}

/// A file list that was sent is received entry by entry in the order in which
/// it was sent, each entry with the fields that the transfer keeps; nothing
/// behind the list is touched.
pub proof fn file_list_round_trip(
    fs: Seq<FileEntry>,
    protocol: u32,
    checksum_len: nat,
    io_error: i32,
    p: Preserve,
    compat_flags: u32,
    rest: Seq<u8>,
)
    requires
        all_travel(fs, protocol, p),
    ensures
        parse_list(
            list_bytes(fs, protocol, checksum_len, io_error, p, compat_flags) + rest,
            Seq::empty(),
            protocol,
            checksum_len,
            p.uid,
            p.gid,
            compat_flags,
        ) == Ok::<(Seq<FileEntry>, Seq<u8>), WireError>(
            (received_all(None, fs, protocol, checksum_len, p), rest),
        ),
{
    let varint_flags = flag_set(compat_flags, CF_VARINT_FLIST_FLAGS);
    let end = end_bytes(protocol, io_error, p, compat_flags);
    lemma_end_travels(protocol, io_error, p, compat_flags, rest);
    lemma_entries_travel(
        None,
        fs,
        Seq::empty(),
        protocol,
        checksum_len,
        p,
        p.uid,
        p.gid,
        compat_flags,
        end + rest,
        rest,
    );
    let body = entries_bytes(None, fs, protocol, checksum_len, p, varint_flags);
    assert(body + end + rest =~= body + (end + rest));
    let all = received_all(None, fs, protocol, checksum_len, p);
    assert(Seq::<FileEntry>::empty() + all =~= all);
}

/// A receiver that does not keep owners and groups makes the same of the
/// entries, and leaves the tables of users and groups behind the list.
pub proof fn file_list_without_tables(
    fs: Seq<FileEntry>,
    protocol: u32,
    checksum_len: nat,
    io_error: i32,
    p: Preserve,
    compat_flags: u32,
    rest: Seq<u8>,
)
    requires
        all_travel(fs, protocol, p),
    ensures
        parse_list(
            list_bytes(fs, protocol, checksum_len, io_error, p, compat_flags) + rest,
            Seq::empty(),
            protocol,
            checksum_len,
            false,
            false,
            compat_flags,
        ) == Ok::<(Seq<FileEntry>, Seq<u8>), WireError>(
            (
                received_all(None, fs, protocol, checksum_len, p),
                id_tables(protocol, p, compat_flags) + rest,
            ),
        ),
{
    let varint_flags = flag_set(compat_flags, CF_VARINT_FLIST_FLAGS);
    let end = end_bytes(protocol, io_error, p, compat_flags);
    lemma_end_travels(protocol, io_error, p, compat_flags, rest);
    lemma_entries_travel(
        None,
        fs,
        Seq::empty(),
        protocol,
        checksum_len,
        p,
        false,
        false,
        compat_flags,
        end + rest,
        id_tables(protocol, p, compat_flags) + rest,
    );
    let body = entries_bytes(None, fs, protocol, checksum_len, p, varint_flags);
    assert(body + end + rest =~= body + (end + rest));
    let all = received_all(None, fs, protocol, checksum_len, p);
    assert(Seq::<FileEntry>::empty() + all =~= all);
}

/// Whether the parts of an entry's path are what splitting the path gives.
pub open spec fn well_named(f: FileEntry) -> bool {
    &&& !f.name.contains('/')
    &&& f.dirname matches Some(d) ==> d.len() > 0
}

proof fn lemma_well_named(f: FileEntry)
    requires
        well_named(f),
    ensures
        base_part(f.path()) == f.name,
        dir_part(f.path()) == f.dirname,
        splits_cleanly(f.path()),
{
    let path = f.path();
    lemma_last_slash(path);
    match f.dirname {
        Some(d) => {
            assert(path[d.len() as int] == '/');
            match last_slash(path) {
                Some(i) => {
                    if i < d.len() {
                        assert(path.skip(i + 1)[d.len() - i - 1] == '/');
                        assert(path.skip(i + 1).contains('/'));
                    } else if i > d.len() {
                        assert(f.name[i - d.len() - 1] == path[i]);
                        assert(f.name.contains('/'));
                    }
                    assert(path.take(i) =~= d);
                    assert(path.skip(i + 1) =~= f.name);
                },
                None => {
                    assert(path.contains('/'));
                },
            }
        },
        None => {
            match last_slash(path) {
                Some(i) => {
                    assert(f.name[i] == '/');
                    assert(f.name.contains('/'));
                },
                None => {},
            }
        },
    }
}

/// What a received list holds at each position of the list that was sent.
pub proof fn received_keeps(
    before: Option<FileEntry>,
    fs: Seq<FileEntry>,
    protocol: u32,
    checksum_len: nat,
    p: Preserve,
    i: int,
)
    requires
        0 <= i < fs.len(),
        splits_cleanly(fs[i].path()),
    ensures
        received_all(before, fs, protocol, checksum_len, p).len() == fs.len(),
        ({
            let f = fs[i];
            let g = received_all(before, fs, protocol, checksum_len, p)[i];
            &&& g.path() == f.path()
            &&& g.size == f.size
            &&& g.mode == f.mode
            &&& p.times && protocol >= 30 ==> g.modtime == f.modtime
            &&& protocol >= 31 ==> g.mod_nsec == f.mod_nsec
            &&& p.uid ==> g.uid == f.uid
            &&& p.gid ==> g.gid == f.gid
            &&& f.file_type() == FileType::Symlink ==> g.link_target == Some(link_text(f))
            &&& f.file_type() == FileType::Device ==> g.rdev_major == f.rdev_major && g.rdev_minor
                == f.rdev_minor
            &&& checksum_len > 0 && f.file_type() == FileType::Regular && (f.checksum matches Some(
                s,
            ) && s.len() == checksum_len) ==> g.checksum == f.checksum
            &&& g.hard_link_first_ndx == NO_HARD_LINK
            &&& well_named(f) ==> g.name == f.name && g.dirname == f.dirname
        }),
    decreases fs.len(),
{
    let g0 = received(before, fs[0], protocol, checksum_len, p);
    let all = received_all(before, fs, protocol, checksum_len, p);
    lemma_received_len(Some(g0), fs.skip(1), protocol, checksum_len, p);
    if i == 0 {
        split_path_joins(fs[0].path(), g0);
        assert(all[0] == g0);
        if well_named(fs[0]) {
            lemma_well_named(fs[0]);
        }
        match fs[0].checksum {
            Some(s) => {
                if s.len() == checksum_len {
                    assert(s.take(s.len() as int) =~= s);
                }
            },
            None => {},
        }
    } else {
        received_keeps(Some(g0), fs.skip(1), protocol, checksum_len, p, i - 1);
        assert(all[i] == received_all(Some(g0), fs.skip(1), protocol, checksum_len, p)[i - 1]);
    }
}

proof fn lemma_received_len(
    before: Option<FileEntry>,
    fs: Seq<FileEntry>,
    protocol: u32,
    checksum_len: nat,
    p: Preserve,
)
    ensures
        received_all(before, fs, protocol, checksum_len, p).len() == fs.len(),
    decreases fs.len(),
{
    if fs.len() > 0 {
        let g = received(before, fs[0], protocol, checksum_len, p);
        lemma_received_len(Some(g), fs.skip(1), protocol, checksum_len, p);
    }
}

/// A list that was sent in sorted order keeps that order when the receiver
/// sorts it: both sides number the files alike.
pub proof fn sorted_list_keeps_its_order(
    fs: Seq<FileEntry>,
    protocol: u32,
    checksum_len: nat,
    p: Preserve,
    order: Seq<int>,
)
    requires
        is_sorted(fs),
        forall|i: int| 0 <= i < fs.len() ==> well_named(#[trigger] fs[i]),
        is_sort_order(received_all(None, fs, protocol, checksum_len, p), order),
    ensures
        received_list(received_all(None, fs, protocol, checksum_len, p), order) == received_all(
            None,
            fs,
            protocol,
            checksum_len,
            p,
        ),
{
    let gs = received_all(None, fs, protocol, checksum_len, p);
    lemma_received_len(None, fs, protocol, checksum_len, p);
    assert forall|i: int| 0 <= i < fs.len() implies sort_key(#[trigger] gs[i]) == sort_key(fs[i])
        && gs[i].hard_link_first_ndx == NO_HARD_LINK by {
        lemma_well_named(fs[i]);
        received_keeps(None, fs, protocol, checksum_len, p, i);
    }
    assert(is_sorted(gs)) by {
        assert forall|i: int, j: int| 0 <= i < j < gs.len() implies !entry_less(
            #[trigger] gs[j],
            #[trigger] gs[i],
        ) by {
            assert(sort_key(gs[i]) == sort_key(fs[i]));
            assert(sort_key(gs[j]) == sort_key(fs[j]));
            assert(!entry_less(fs[j], fs[i]));
        }
    }
    sorting_a_sorted_list(gs, order);
    assert(received_list(gs, order) =~= gs) by {
        assert forall|i: int| 0 <= i < gs.len() implies received_list(gs, order)[i] == gs[i] by {
            assert(order[i] == i);
            assert(gs[i].hard_link_first_ndx == NO_HARD_LINK) by {
                assert(sort_key(gs[i]) == sort_key(fs[i]));
            }
        }
    }
}

} // verus!
