//! The receiving side of the file-list protocol.

use vstd::prelude::*;
use vstd::utf8::encode_utf8;

use crate::flags::{flag_set, has_bit};
use crate::flist::send::{has_rdev, opt_entry, prev_path};
use crate::flist::sort::{
    arrange, arranged, count_up, counting, is_sort_order, positions, sort_order_of,
};
use crate::io::bytes::{bits32, put_bytes, ByteReader, WireError};
use crate::io::parse::{
    parse_byte, parse_bytes, parse_int, parse_varint, parse_varlong, Parsed,
};
use crate::io::varint::{bits32_of, read_byte, read_int, read_varint, read_varint30, read_varlong};
use crate::protocol::constants::{
    CF_INC_RECURSE, CF_VARINT_FLIST_FLAGS, FLAG_HLINKED, XMIT_EXTENDED_FLAGS,
    XMIT_GROUP_NAME_FOLLOWS, XMIT_HLINKED, XMIT_HLINK_FIRST, XMIT_IO_ERROR_ENDLIST, XMIT_LONG_NAME,
    XMIT_MOD_NSEC, XMIT_SAME_GID, XMIT_SAME_MODE, XMIT_SAME_NAME, XMIT_SAME_TIME, XMIT_SAME_UID,
    XMIT_USER_NAME_FOLLOWS,
};
use crate::protocol::types::{
    base_part, copy_text, dir_part, entries, file_type_of, opt_bytes, opt_text, split_rel,
    FileEntry, FileInfo, FileList, FileType, NO_HARD_LINK,
};
use crate::text::{text_of, utf8_lossy};

verus! {

// ---------------------------------------------------------------------------
// What received bytes mean
// ---------------------------------------------------------------------------

/// A length as a `varint`.
pub open spec fn parse_count(buf: Seq<u8>) -> Parsed<nat> {
    match parse_varint(buf) {
        Err(e) => Err(e),
        Ok((n, rest)) => if n < 0 {
            Err(WireError::NegativeLength)
        } else {
            Ok((n as nat, rest))
        },
    }
}

/// The flag bits of an entry; zero at the end of the list.
pub open spec fn parse_flags(buf: Seq<u8>, varint_flags: bool, protocol: u32) -> Parsed<u32> {
    if varint_flags {
        match parse_varint(buf) {
            Err(e) => Err(e),
            Ok((x, rest)) => Ok((bits32(x) as u32, rest)),
        }
    } else {
        match parse_byte(buf) {
            Err(e) => Err(e),
            Ok((low, r1)) => if protocol >= 28 && flag_set(low as u32, XMIT_EXTENDED_FLAGS) {
                match parse_byte(r1) {
                    Err(e) => Err(e),
                    Ok((high, r2)) => {
                        let x = low + high * 256;
                        if x == XMIT_EXTENDED_FLAGS + XMIT_IO_ERROR_ENDLIST {
                            match parse_varint(r2) {
                                Err(e) => Err(e),
                                Ok((_, r3)) => Ok((0u32, r3)),
                            }
                        } else {
                            Ok((x as u32, r2))
                        }
                    },
                }
            } else {
                Ok((low as u32, r1))
            },
        }
    }
}

/// The bytes of an entry's path: those shared with the path before, and those
/// sent.
pub open spec fn parse_name(buf: Seq<u8>, x: u32, before: Seq<u8>) -> Parsed<Seq<u8>> {
    let same: Parsed<nat> = if flag_set(x, XMIT_SAME_NAME) {
        match parse_byte(buf) {
            Err(e) => Err(e),
            Ok((n, rest)) => Ok((n as nat, rest)),
        }
    } else {
        Ok((0nat, buf))
    };
    match same {
        Err(e) => Err(e),
        Ok((same, r1)) => {
            let more: Parsed<nat> = if flag_set(x, XMIT_LONG_NAME) {
                parse_count(r1)
            } else {
                match parse_byte(r1) {
                    Err(e) => Err(e),
                    Ok((n, rest)) => Ok((n as nat, rest)),
                }
            };
            match more {
                Err(e) => Err(e),
                Ok((n, r2)) => if same > before.len() {
                    Err(WireError::BadPrefix)
                } else {
                    match parse_bytes(r2, n as int) {
                        Err(e) => Err(e),
                        Ok((b, r3)) => Ok((before.take(same as int) + b, r3)),
                    }
                },
            }
        },
    }
}

/// Size, modification time and nanoseconds of an entry.
pub open spec fn parse_times(buf: Seq<u8>, x: u32, prev: Option<FileEntry>, protocol: u32) -> Parsed<
    (i64, i64, u32),
> {
    match parse_varlong(buf, 3) {
        Err(e) => Err(e),
        Ok((size, r1)) => {
            let time: Parsed<i64> = if flag_set(x, XMIT_SAME_TIME) {
                Ok((
                    match prev {
                        Some(p) => p.modtime,
                        None => 0,
                    },
                    r1,
                ))
            } else if protocol >= 30 {
                parse_varlong(r1, 4)
            } else {
                match parse_int(r1) {
                    Err(e) => Err(e),
                    Ok((t, rest)) => Ok((t as i64, rest)),
                }
            };
            match time {
                Err(e) => Err(e),
                Ok((t, r2)) => if flag_set(x, XMIT_MOD_NSEC) {
                    match parse_varint(r2) {
                        Err(e) => Err(e),
                        Ok((ns, r3)) => Ok(((size, t, bits32(ns) as u32), r3)),
                    }
                } else {
                    Ok(((size, t, 0u32), r2))
                },
            }
        },
    }
}

/// A user or group number, with the name behind it where there is one.
pub open spec fn parse_id(buf: Seq<u8>, same: bool, before: u32, named: bool, protocol: u32) -> Parsed<
    u32,
> {
    if same {
        Ok((before, buf))
    } else if protocol >= 30 {
        match parse_varint(buf) {
            Err(e) => Err(e),
            Ok((id, r1)) => if named {
                match parse_skip(r1) {
                    Err(e) => Err(e),
                    Ok((_, r2)) => Ok((bits32(id) as u32, r2)),
                }
            } else {
                Ok((bits32(id) as u32, r1))
            },
        }
    } else {
        match parse_int(buf) {
            Err(e) => Err(e),
            Ok((id, r1)) => Ok((bits32(id) as u32, r1)),
        }
    }
}

/// A name behind its length byte.
pub open spec fn parse_skip(buf: Seq<u8>) -> Parsed<Seq<u8>> {
    match parse_byte(buf) {
        Err(e) => Err(e),
        Ok((n, rest)) => parse_bytes(rest, n as int),
    }
}

/// Mode, owner and group of an entry.
pub open spec fn parse_owner(buf: Seq<u8>, x: u32, prev: Option<FileEntry>, protocol: u32) -> Parsed<
    (u32, u32, u32),
> {
    let mode: Parsed<u32> = if flag_set(x, XMIT_SAME_MODE) {
        Ok((
            match prev {
                Some(p) => p.mode,
                None => 0x81a4,
            },
            buf,
        ))
    } else {
        match parse_int(buf) {
            Err(e) => Err(e),
            Ok((m, rest)) => Ok((bits32(m) as u32, rest)),
        }
    };
    match mode {
        Err(e) => Err(e),
        Ok((m, r1)) => match parse_id(
            r1,
            flag_set(x, XMIT_SAME_UID),
            match prev {
                Some(p) => p.uid,
                None => 0,
            },
            flag_set(x, XMIT_USER_NAME_FOLLOWS),
            protocol,
        ) {
            Err(e) => Err(e),
            Ok((uid, r2)) => match parse_id(
                r2,
                flag_set(x, XMIT_SAME_GID),
                match prev {
                    Some(p) => p.gid,
                    None => 0,
                },
                flag_set(x, XMIT_GROUP_NAME_FOLLOWS),
                protocol,
            ) {
                Err(e) => Err(e),
                Ok((gid, r3)) => Ok(((m, uid, gid), r3)),
            },
        },
    }
}

/// The device number of an entry; what is not sent stays as it was.
pub open spec fn parse_rdev(buf: Seq<u8>, t: FileType, prev: Option<FileEntry>, protocol: u32) -> Parsed<
    (u32, u32),
> {
    if has_rdev(t, protocol) {
        match parse_varint(buf) {
            Err(e) => Err(e),
            Ok((major, r1)) => match parse_id(r1, false, 0, false, protocol) {
                Err(e) => Err(e),
                Ok((minor, r2)) => Ok(((bits32(major) as u32, minor), r2)),
            },
        }
    } else {
        Ok((
            match prev {
                Some(p) => (p.rdev_major, p.rdev_minor),
                None => (0u32, 0u32),
            },
            buf,
        ))
    }
}

/// The target of a symbolic link.
pub open spec fn parse_target(buf: Seq<u8>, t: FileType) -> Parsed<Option<Seq<char>>> {
    if t == FileType::Symlink {
        match parse_count(buf) {
            Err(e) => Err(e),
            Ok((n, r1)) => match parse_bytes(r1, n as int) {
                Err(e) => Err(e),
                Ok((b, r2)) => Ok((Some(text_of(b)), r2)),
            },
        }
    } else {
        Ok((None, buf))
    }
}

/// The checksum of a plain file.
pub open spec fn parse_sum(buf: Seq<u8>, t: FileType, checksum_len: nat) -> Parsed<Option<Seq<u8>>> {
    if checksum_len > 0 && t == FileType::Regular {
        match parse_bytes(buf, checksum_len as int) {
            Err(e) => Err(e),
            Ok((b, rest)) => Ok((Some(b), rest)),
        }
    } else {
        Ok((None, buf))
    }
}

/// A later member of a hard-link cluster: its own name, everything else from
/// the first member.
pub open spec fn parse_member(
    buf: Seq<u8>,
    path: Seq<char>,
    so_far: Seq<FileEntry>,
    ndx_start: i32,
) -> Parsed<FileEntry> {
    match parse_varint(buf) {
        Err(e) => Err(e),
        Ok((first, rest)) => {
            let k = first - ndx_start;
            if 0 <= k < so_far.len() {
                Ok((
                    FileEntry {
                        name: base_part(path),
                        dirname: dir_part(path),
                        flags: FLAG_HLINKED,
                        hard_link_first_ndx: first,
                        dev: 0,
                        ino: 0,
                        checksum: None,
                        ..so_far[k]
                    },
                    rest,
                ))
            } else {
                Err(WireError::BadHardLink)
            }
        },
    }
}

/// The fields behind the name of an entry that is not a later member of a
/// hard-link cluster.
pub open spec fn parse_fields(
    buf: Seq<u8>,
    x: u32,
    path: Seq<char>,
    prev: Option<FileEntry>,
    protocol: u32,
    checksum_len: nat,
) -> Parsed<FileEntry> {
    match parse_times(buf, x, prev, protocol) {
        Err(e) => Err(e),
        Ok(((size, modtime, mod_nsec), r1)) => match parse_owner(r1, x, prev, protocol) {
            Err(e) => Err(e),
            Ok(((mode, uid, gid), r2)) => {
                let t = file_type_of(mode);
                match parse_rdev(r2, t, prev, protocol) {
                    Err(e) => Err(e),
                    Ok(((rdev_major, rdev_minor), r3)) => match parse_target(r3, t) {
                        Err(e) => Err(e),
                        Ok((link_target, r4)) => match parse_sum(r4, t, checksum_len) {
                            Err(e) => Err(e),
                            Ok((checksum, r5)) => Ok((
                                FileEntry {
                                    name: base_part(path),
                                    dirname: dir_part(path),
                                    modtime,
                                    mod_nsec,
                                    size,
                                    mode,
                                    flags: 0,
                                    uid,
                                    gid,
                                    link_target,
                                    rdev_major,
                                    rdev_minor,
                                    hard_link_first_ndx: NO_HARD_LINK,
                                    dev: 0,
                                    ino: 0,
                                    checksum,
                                },
                                r5,
                            )),
                        },
                    },
                }
            },
        },
    }
}

/// Whether flag bits announce a later member of a hard-link cluster.
pub open spec fn is_member(x: u32, protocol: u32) -> bool {
    protocol >= 30 && flag_set(x, XMIT_HLINKED) && !flag_set(x, XMIT_HLINK_FIRST)
}

/// An entry whose flag bits have been read.
pub open spec fn parse_entry(
    buf: Seq<u8>,
    x: u32,
    prev: Option<FileEntry>,
    protocol: u32,
    checksum_len: nat,
    so_far: Seq<FileEntry>,
    ndx_start: i32,
) -> Parsed<FileEntry> {
    match parse_name(buf, x, prev_path(prev)) {
        Err(e) => Err(e),
        Ok((b, r1)) => if is_member(x, protocol) {
            parse_member(r1, text_of(b), so_far, ndx_start)
        } else {
            parse_fields(r1, x, text_of(b), prev, protocol, checksum_len)
        },
    }
}

/// A table of names: numbers with a name behind each, up to the number zero.
pub open spec fn parse_id_table(buf: Seq<u8>) -> Parsed<()>
    decreases buf.len(),
{
    match parse_varint(buf) {
        Err(e) => Err(e),
        Ok((id, r1)) => if id == 0 {
            Ok(((), r1))
        } else {
            match parse_skip(r1) {
                Err(e) => Err(e),
                Ok((_, r2)) => if r2.len() < buf.len() {
                    parse_id_table(r2)
                } else {
                    Err(WireError::UnexpectedEof)
                },
            }
        },
    }
}

/// What stands behind the end marker of a list.
pub open spec fn parse_end(
    buf: Seq<u8>,
    protocol: u32,
    preserve_uid: bool,
    preserve_gid: bool,
    compat_flags: u32,
) -> Parsed<()> {
    let head: Parsed<()> = if flag_set(compat_flags, CF_VARINT_FLIST_FLAGS) {
        match parse_varint(buf) {
            Err(e) => Err(e),
            Ok((_, rest)) => Ok(((), rest)),
        }
    } else {
        Ok(((), buf))
    };
    match head {
        Err(e) => Err(e),
        Ok((_, r1)) => if protocol < 30 {
            match parse_int(r1) {
                Err(e) => Err(e),
                Ok((_, rest)) => Ok(((), rest)),
            }
        } else if !flag_set(compat_flags, CF_INC_RECURSE) {
            let users: Parsed<()> = if preserve_uid {
                parse_id_table(r1)
            } else {
                Ok(((), r1))
            };
            match users {
                Err(e) => Err(e),
                Ok((_, r2)) => if preserve_gid {
                    parse_id_table(r2)
                } else {
                    Ok(((), r2))
                },
            }
        } else {
            Ok(((), r1))
        },
    }
}

/// The last of the entries received so far.
pub open spec fn last_of(so_far: Seq<FileEntry>) -> Option<FileEntry> {
    if so_far.len() == 0 {
        None
    } else {
        Some(so_far.last())
    }
}

/// The entries of a list, in the order in which they were sent, given those
/// received so far.
pub open spec fn parse_list(
    buf: Seq<u8>,
    so_far: Seq<FileEntry>,
    protocol: u32,
    checksum_len: nat,
    preserve_uid: bool,
    preserve_gid: bool,
    compat_flags: u32,
) -> Parsed<Seq<FileEntry>>
    decreases buf.len(),
{
    match parse_flags(buf, flag_set(compat_flags, CF_VARINT_FLIST_FLAGS), protocol) {
        Err(e) => Err(e),
        Ok((x, r1)) => if x == 0 {
            match parse_end(r1, protocol, preserve_uid, preserve_gid, compat_flags) {
                Err(e) => Err(e),
                Ok((_, r2)) => Ok((so_far, r2)),
            }
        } else {
            match parse_entry(r1, x, last_of(so_far), protocol, checksum_len, so_far, 0) {
                Err(e) => Err(e),
                Ok((f, r2)) => if r2.len() < buf.len() {
                    parse_list(
                        r2,
                        so_far.push(f),
                        protocol,
                        checksum_len,
                        preserve_uid,
                        preserve_gid,
                        compat_flags,
                    )
                } else {
                    Err(WireError::UnexpectedEof)
                },
            }
        },
    }
}

/// An entry of a list that was put into the order `order`: its hard-link
/// index follows the file that it names.
pub open spec fn relinked(f: FileEntry, order: Seq<int>) -> FileEntry {
    if 0 <= f.hard_link_first_ndx < order.len() {
        FileEntry {
            hard_link_first_ndx: order.index_of(f.hard_link_first_ndx as int) as i32,
            ..f
        }
    } else {
        f
    }
}

/// The received entries in sorted order, with their hard-link indices.
pub open spec fn received_list(fs: Seq<FileEntry>, order: Seq<int>) -> Seq<FileEntry> {
    Seq::new(order.len(), |i: int| relinked(fs[order[i]], order))
}

// ---------------------------------------------------------------------------
// Reading
// ---------------------------------------------------------------------------

/// What all the readers below keep: no byte of the input is lost, and none
/// comes from elsewhere.
pub open spec fn reads_on(before: ByteReader, after: ByteReader) -> bool {
    &&& after@.len() <= before@.len()
    &&& forall|q: nat| #[trigger] after.at(q) == before.at(q)
}

fn read_count(r: &mut ByteReader) -> (res: Result<usize, WireError>)
    ensures
        match res {
            Ok(n) => parse_count(old(r)@) == Ok::<(nat, Seq<u8>), WireError>((n as nat, final(r)@)),
            Err(e) => parse_count(old(r)@) == Err::<(nat, Seq<u8>), WireError>(e),
        },
        reads_on(*old(r), *final(r)),
{
    proof {
        reveal(parse_varint);
    }
    match read_varint30(r) {
        Err(e) => Err(e),
        Ok(n) => if n < 0 {
            Err(WireError::NegativeLength)
        } else {
            Ok(n as usize)
        },
    }
}

fn read_flags(r: &mut ByteReader, varint_flags: bool, protocol: u32) -> (res: Result<u32, WireError>)
    ensures
        match res {
            Ok(x) => parse_flags(old(r)@, varint_flags, protocol) == Ok::<
                (u32, Seq<u8>),
                WireError,
            >((x, final(r)@)) && final(r)@.len() < old(r)@.len(),
            Err(e) => parse_flags(old(r)@, varint_flags, protocol) == Err::<
                (u32, Seq<u8>),
                WireError,
            >(e),
        },
        reads_on(*old(r), *final(r)),
{
    proof {
        reveal(parse_varint);
        reveal(parse_byte);
    }
    if varint_flags {
        return match read_varint(r) {
            Err(e) => Err(e),
            Ok(x) => Ok(bits32_of(x)),
        };
    }
    let low: u8 = match read_byte(r) {
        Err(e) => return Err(e),
        Ok(b) => b,
    };
    if !(protocol >= 28 && has_bit(low as u32, XMIT_EXTENDED_FLAGS)) {
        return Ok(low as u32);
    }
    let high: u8 = match read_byte(r) {
        Err(e) => return Err(e),
        Ok(b) => b,
    };
    let x: u32 = low as u32 + high as u32 * 256;
    if x == XMIT_EXTENDED_FLAGS + XMIT_IO_ERROR_ENDLIST {
        match read_varint(r) {
            Err(e) => Err(e),
            Ok(_) => Ok(0),
        }
    } else {
        Ok(x)
    }
}

fn read_name(r: &mut ByteReader, x: u32, before: &[u8]) -> (res: Result<Vec<u8>, WireError>)
    ensures
        match res {
            Ok(b) => parse_name(old(r)@, x, before@) == Ok::<(Seq<u8>, Seq<u8>), WireError>(
                (b@, final(r)@),
            ),
            Err(e) => parse_name(old(r)@, x, before@) == Err::<(Seq<u8>, Seq<u8>), WireError>(e),
        },
        reads_on(*old(r), *final(r)),
{
    proof {
        reveal(parse_byte);
        reveal(parse_bytes);
    }
    let same: usize = if has_bit(x, XMIT_SAME_NAME) {
        match read_byte(r) {
            Err(e) => return Err(e),
            Ok(b) => b as usize,
        }
    } else {
        0
    };
    let n: usize = if has_bit(x, XMIT_LONG_NAME) {
        match read_count(r) {
            Err(e) => return Err(e),
            Ok(n) => n,
        }
    } else {
        match read_byte(r) {
            Err(e) => return Err(e),
            Ok(b) => b as usize,
        }
    };
    if same > before.len() {
        return Err(WireError::BadPrefix);
    }
    let rest: Vec<u8> = match r.take_bytes(n) {
        Err(e) => return Err(e),
        Ok(b) => b,
    };
    let mut name: Vec<u8> = Vec::new();
    put_bytes(&mut name, before.split_at(same).0);
    put_bytes(&mut name, rest.as_slice());
    assert(name@ =~= before@.take(same as int) + rest@);
    Ok(name)
}

fn read_times(r: &mut ByteReader, x: u32, prev: Option<&FileInfo>, protocol: u32) -> (res: Result<
    (i64, i64, u32),
    WireError,
>)
    ensures
        match res {
            Ok(v) => parse_times(old(r)@, x, opt_entry(prev), protocol) == Ok::<
                ((i64, i64, u32), Seq<u8>),
                WireError,
            >((v, final(r)@)),
            Err(e) => parse_times(old(r)@, x, opt_entry(prev), protocol) == Err::<
                ((i64, i64, u32), Seq<u8>),
                WireError,
            >(e),
        },
        reads_on(*old(r), *final(r)),
{
    proof {
        reveal(parse_varint);
        reveal(parse_varlong);
        reveal(parse_int);
    }
    let size: i64 = match read_varlong(r, 3) {
        Err(e) => return Err(e),
        Ok(v) => v,
    };
    let time: i64 = if has_bit(x, XMIT_SAME_TIME) {
        match prev {
            Some(p) => p.modtime,
            None => 0,
        }
    } else if protocol >= 30 {
        match read_varlong(r, 4) {
            Err(e) => return Err(e),
            Ok(v) => v,
        }
    } else {
        match read_int(r) {
            Err(e) => return Err(e),
            Ok(v) => v as i64,
        }
    };
    if has_bit(x, XMIT_MOD_NSEC) {
        match read_varint(r) {
            Err(e) => Err(e),
            Ok(ns) => Ok((size, time, bits32_of(ns))),
        }
    } else {
        Ok((size, time, 0))
    }
}

fn skip_name(r: &mut ByteReader) -> (res: Result<(), WireError>)
    ensures
        match res {
            Ok(_) => parse_skip(old(r)@) matches Ok((_, rest)) && rest == final(r)@,
            Err(e) => parse_skip(old(r)@) == Err::<(Seq<u8>, Seq<u8>), WireError>(e),
        },
        reads_on(*old(r), *final(r)),
{
    proof {
        reveal(parse_byte);
        reveal(parse_bytes);
    }
    let n: u8 = match read_byte(r) {
        Err(e) => return Err(e),
        Ok(b) => b,
    };
    match r.take_bytes(n as usize) {
        Err(e) => Err(e),
        Ok(_) => Ok(()),
    }
}

fn read_id(r: &mut ByteReader, same: bool, before: u32, named: bool, protocol: u32) -> (res: Result<
    u32,
    WireError,
>)
    ensures
        match res {
            Ok(v) => parse_id(old(r)@, same, before, named, protocol) == Ok::<
                (u32, Seq<u8>),
                WireError,
            >((v, final(r)@)),
            Err(e) => parse_id(old(r)@, same, before, named, protocol) == Err::<
                (u32, Seq<u8>),
                WireError,
            >(e),
        },
        reads_on(*old(r), *final(r)),
{
    proof {
        reveal(parse_varint);
        reveal(parse_int);
    }
    if same {
        return Ok(before);
    }
    if protocol >= 30 {
        let id: i32 = match read_varint(r) {
            Err(e) => return Err(e),
            Ok(v) => v,
        };
        if named {
            match skip_name(r) {
                Err(e) => return Err(e),
                Ok(_) => {},
            }
        }
        Ok(bits32_of(id))
    } else {
        match read_int(r) {
            Err(e) => Err(e),
            Ok(v) => Ok(bits32_of(v)),
        }
    }
}

fn read_owner(r: &mut ByteReader, x: u32, prev: Option<&FileInfo>, protocol: u32) -> (res: Result<
    (u32, u32, u32),
    WireError,
>)
    ensures
        match res {
            Ok(v) => parse_owner(old(r)@, x, opt_entry(prev), protocol) == Ok::<
                ((u32, u32, u32), Seq<u8>),
                WireError,
            >((v, final(r)@)),
            Err(e) => parse_owner(old(r)@, x, opt_entry(prev), protocol) == Err::<
                ((u32, u32, u32), Seq<u8>),
                WireError,
            >(e),
        },
        reads_on(*old(r), *final(r)),
{
    proof {
        reveal(parse_int);
    }
    let before: (u32, u32, u32) = match prev {
        Some(p) => (p.mode, p.uid, p.gid),
        None => (0x81a4, 0, 0),
    };
    let mode: u32 = if has_bit(x, XMIT_SAME_MODE) {
        before.0
    } else {
        match read_int(r) {
            Err(e) => return Err(e),
            Ok(v) => bits32_of(v),
        }
    };
    let uid: u32 = match read_id(
        r,
        has_bit(x, XMIT_SAME_UID),
        before.1,
        has_bit(x, XMIT_USER_NAME_FOLLOWS),
        protocol,
    ) {
        Err(e) => return Err(e),
        Ok(v) => v,
    };
    let gid: u32 = match read_id(
        r,
        has_bit(x, XMIT_SAME_GID),
        before.2,
        has_bit(x, XMIT_GROUP_NAME_FOLLOWS),
        protocol,
    ) {
        Err(e) => return Err(e),
        Ok(v) => v,
    };
    Ok((mode, uid, gid))
}

fn read_rdev(r: &mut ByteReader, t: FileType, prev: Option<&FileInfo>, protocol: u32) -> (res: Result<
    (u32, u32),
    WireError,
>)
    ensures
        match res {
            Ok(v) => parse_rdev(old(r)@, t, opt_entry(prev), protocol) == Ok::<
                ((u32, u32), Seq<u8>),
                WireError,
            >((v, final(r)@)),
            Err(e) => parse_rdev(old(r)@, t, opt_entry(prev), protocol) == Err::<
                ((u32, u32), Seq<u8>),
                WireError,
            >(e),
        },
        reads_on(*old(r), *final(r)),
{
    proof {
        reveal(parse_varint);
    }
    if matches!(t, FileType::Device) || (matches!(t, FileType::Special) && protocol < 31) {
        let major: i32 = match read_varint30(r) {
            Err(e) => return Err(e),
            Ok(v) => v,
        };
        match read_id(r, false, 0, false, protocol) {
            Err(e) => Err(e),
            Ok(minor) => Ok((bits32_of(major), minor)),
        }
    } else {
        match prev {
            Some(p) => Ok((p.rdev_major, p.rdev_minor)),
            None => Ok((0, 0)),
        }
    }
}

fn read_target(r: &mut ByteReader, t: FileType) -> (res: Result<Option<String>, WireError>)
    ensures
        match res {
            Ok(v) => parse_target(old(r)@, t) == Ok::<(Option<Seq<char>>, Seq<u8>), WireError>(
                (opt_text(v), final(r)@),
            ),
            Err(e) => parse_target(old(r)@, t) == Err::<(Option<Seq<char>>, Seq<u8>), WireError>(
                e,
            ),
        },
        reads_on(*old(r), *final(r)),
{
    proof {
        reveal(parse_bytes);
    }
    if !t.is_symlink() {
        return Ok(None);
    }
    let n: usize = match read_count(r) {
        Err(e) => return Err(e),
        Ok(n) => n,
    };
    match r.take_bytes(n) {
        Err(e) => Err(e),
        Ok(b) => Ok(Some(utf8_lossy(b.as_slice()))),
    }
}

fn read_sum(r: &mut ByteReader, t: FileType, checksum_len: usize) -> (res: Result<
    Option<Vec<u8>>,
    WireError,
>)
    ensures
        match res {
            Ok(v) => parse_sum(old(r)@, t, checksum_len as nat) == Ok::<
                (Option<Seq<u8>>, Seq<u8>),
                WireError,
            >((opt_bytes(v), final(r)@)),
            Err(e) => parse_sum(old(r)@, t, checksum_len as nat) == Err::<
                (Option<Seq<u8>>, Seq<u8>),
                WireError,
            >(e),
        },
        reads_on(*old(r), *final(r)),
{
    proof {
        reveal(parse_bytes);
    }
    if checksum_len > 0 && t.is_regular() {
        match r.take_bytes(checksum_len) {
            Err(e) => Err(e),
            Ok(b) => Ok(Some(b)),
        }
    } else {
        Ok(None)
    }
}

fn read_member(r: &mut ByteReader, path: &str, so_far: &[FileInfo], ndx_start: i32) -> (res: Result<
    FileInfo,
    WireError,
>)
    ensures
        match res {
            Ok(f) => parse_member(old(r)@, path@, entries(so_far@), ndx_start) == Ok::<
                (FileEntry, Seq<u8>),
                WireError,
            >((f@, final(r)@)),
            Err(e) => parse_member(old(r)@, path@, entries(so_far@), ndx_start) == Err::<
                (FileEntry, Seq<u8>),
                WireError,
            >(e),
        },
        reads_on(*old(r), *final(r)),
{
    proof {
        reveal(parse_varint);
    }
    let first: i32 = match read_varint(r) {
        Err(e) => return Err(e),
        Ok(v) => v,
    };
    let k: i64 = first as i64 - ndx_start as i64;
    if k < 0 || k as u64 >= so_far.len() as u64 {
        return Err(WireError::BadHardLink);
    }
    let q: &FileInfo = &so_far[k as usize];
    let parts: (Option<String>, String) = split_rel(path);
    assert(entries(so_far@)[k as int] == q@);
    Ok(
        FileInfo {
            name: parts.1,
            dirname: parts.0,
            modtime: q.modtime,
            mod_nsec: q.mod_nsec,
            size: q.size,
            mode: q.mode,
            flags: FLAG_HLINKED,
            uid: q.uid,
            gid: q.gid,
            link_target: copy_text(&q.link_target),
            rdev_major: q.rdev_major,
            rdev_minor: q.rdev_minor,
            hard_link_first_ndx: first,
            dev: 0,
            ino: 0,
            checksum: None,
        },
    )
}

fn read_fields(
    r: &mut ByteReader,
    x: u32,
    path: &str,
    prev: Option<&FileInfo>,
    protocol: u32,
    checksum_len: usize,
) -> (res: Result<FileInfo, WireError>)
    ensures
        match res {
            Ok(f) => parse_fields(
                old(r)@,
                x,
                path@,
                opt_entry(prev),
                protocol,
                checksum_len as nat,
            ) == Ok::<(FileEntry, Seq<u8>), WireError>((f@, final(r)@)),
            Err(e) => parse_fields(
                old(r)@,
                x,
                path@,
                opt_entry(prev),
                protocol,
                checksum_len as nat,
            ) == Err::<(FileEntry, Seq<u8>), WireError>(e),
        },
        reads_on(*old(r), *final(r)),
{
    let times: (i64, i64, u32) = match read_times(r, x, prev, protocol) {
        Err(e) => return Err(e),
        Ok(v) => v,
    };
    let owner: (u32, u32, u32) = match read_owner(r, x, prev, protocol) {
        Err(e) => return Err(e),
        Ok(v) => v,
    };
    let t: FileType = FileType::from_mode(owner.0);
    let rdev: (u32, u32) = match read_rdev(r, t, prev, protocol) {
        Err(e) => return Err(e),
        Ok(v) => v,
    };
    let link_target: Option<String> = match read_target(r, t) {
        Err(e) => return Err(e),
        Ok(v) => v,
    };
    let checksum: Option<Vec<u8>> = match read_sum(r, t, checksum_len) {
        Err(e) => return Err(e),
        Ok(v) => v,
    };
    let parts: (Option<String>, String) = split_rel(path);
    Ok(
        FileInfo {
            name: parts.1,
            dirname: parts.0,
            modtime: times.1,
            mod_nsec: times.2,
            size: times.0,
            mode: owner.0,
            flags: 0,
            uid: owner.1,
            gid: owner.2,
            link_target,
            rdev_major: rdev.0,
            rdev_minor: rdev.1,
            hard_link_first_ndx: NO_HARD_LINK,
            dev: 0,
            ino: 0,
            checksum,
        },
    )
}

/// Reads an entry whose flag bits have been read already.  `so_far` holds the
/// entries received before it, the first of them with index `ndx_start`.
fn recv_file_entry_inner(
    r: &mut ByteReader,
    x: u32,
    prev: Option<&FileInfo>,
    protocol: u32,
    checksum_len: usize,
    so_far: &[FileInfo],
    ndx_start: i32,
) -> (res: Result<FileInfo, WireError>)
    ensures
        match res {
            Ok(f) => parse_entry(
                old(r)@,
                x,
                opt_entry(prev),
                protocol,
                checksum_len as nat,
                entries(so_far@),
                ndx_start,
            ) == Ok::<(FileEntry, Seq<u8>), WireError>((f@, final(r)@)),
            Err(e) => parse_entry(
                old(r)@,
                x,
                opt_entry(prev),
                protocol,
                checksum_len as nat,
                entries(so_far@),
                ndx_start,
            ) == Err::<(FileEntry, Seq<u8>), WireError>(e),
        },
        reads_on(*old(r), *final(r)),
{
    let before: String = match prev {
        Some(p) => p.path(),
        None => String::new(),
    };
    assert(encode_utf8(before@) =~= prev_path(opt_entry(prev)));
    let name: Vec<u8> = match read_name(r, x, before.as_str().as_bytes()) {
        Err(e) => return Err(e),
        Ok(b) => b,
    };
    let path: String = utf8_lossy(name.as_slice());
    assert(path@ == text_of(name@));
    if protocol >= 30 && has_bit(x, XMIT_HLINKED) && !has_bit(x, XMIT_HLINK_FIRST) {
        read_member(r, path.as_str(), so_far, ndx_start)
    } else {
        read_fields(r, x, path.as_str(), prev, protocol, checksum_len)
    }
}

/// Reads one entry, flag bits first, in the variable-length form.
pub fn recv_file_entry(
    r: &mut ByteReader,
    prev: Option<&FileInfo>,
    protocol: u32,
    checksum_len: usize,
) -> (res: Result<FileInfo, WireError>)
    ensures
        match (res, parse_flags(old(r)@, true, protocol)) {
            (Err(e), Err(x)) => e == x && final(r)@ == old(r)@,
            (res, Ok((x, r1))) => match res {
                Ok(f) => parse_entry(
                    r1,
                    x,
                    opt_entry(prev),
                    protocol,
                    checksum_len as nat,
                    Seq::empty(),
                    0,
                ) == Ok::<(FileEntry, Seq<u8>), WireError>((f@, final(r)@)),
                Err(e) => parse_entry(
                    r1,
                    x,
                    opt_entry(prev),
                    protocol,
                    checksum_len as nat,
                    Seq::empty(),
                    0,
                ) == Err::<(FileEntry, Seq<u8>), WireError>(e) && final(r)@ == old(r)@,
            },
            _ => false,
        },
{
    let start: usize = r.position();
    let none: Vec<FileInfo> = Vec::new();
    assert(entries(none@) =~= Seq::<FileEntry>::empty());
    let x: u32 = match read_flags(r, true, protocol) {
        Err(e) => {
            r.seek(start);
            return Err(e);
        },
        Ok(x) => x,
    };
    match recv_file_entry_inner(r, x, prev, protocol, checksum_len, none.as_slice(), 0) {
        Err(e) => {
            r.seek(start);
            Err(e)
        },
        Ok(f) => Ok(f),
    }
}

fn skip_id_table(r: &mut ByteReader) -> (res: Result<(), WireError>)
    ensures
        match res {
            Ok(v) => parse_id_table(old(r)@) == Ok::<((), Seq<u8>), WireError>((v, final(r)@)),
            Err(e) => parse_id_table(old(r)@) == Err::<((), Seq<u8>), WireError>(e),
        },
        reads_on(*old(r), *final(r)),
{
    loop
        invariant
            parse_id_table(r@) == parse_id_table(old(r)@),
            reads_on(*old(r), *r),
        decreases r@.len(),
    {
        let ghost before = r@;
        proof {
            reveal(parse_varint);
        }
        let id: i32 = match read_varint30(r) {
            Err(e) => return Err(e),
            Ok(v) => v,
        };
        if id == 0 {
            return Ok(());
        }
        match skip_name(r) {
            Err(e) => return Err(e),
            Ok(_) => {},
        }
        assert(r@.len() < before.len());
    }
}

fn read_end(
    r: &mut ByteReader,
    protocol: u32,
    preserve_uid: bool,
    preserve_gid: bool,
    compat_flags: u32,
) -> (res: Result<(), WireError>)
    ensures
        match res {
            Ok(v) => parse_end(old(r)@, protocol, preserve_uid, preserve_gid, compat_flags)
                == Ok::<((), Seq<u8>), WireError>((v, final(r)@)),
            Err(e) => parse_end(old(r)@, protocol, preserve_uid, preserve_gid, compat_flags)
                == Err::<((), Seq<u8>), WireError>(e),
        },
        reads_on(*old(r), *final(r)),
{
    proof {
        reveal(parse_varint);
        reveal(parse_int);
    }
    if has_bit(compat_flags, CF_VARINT_FLIST_FLAGS) {
        match read_varint(r) {
            Err(e) => return Err(e),
            Ok(_) => {},
        }
    }
    if protocol < 30 {
        match read_int(r) {
            Err(e) => return Err(e),
            Ok(_) => {},
        }
    } else if !has_bit(compat_flags, CF_INC_RECURSE) {
        if preserve_uid {
            match skip_id_table(r) {
                Err(e) => return Err(e),
                Ok(_) => {},
            }
        }
        if preserve_gid {
            match skip_id_table(r) {
                Err(e) => return Err(e),
                Ok(_) => {},
            }
        }
    }
    Ok(())
}

fn read_entries(
    r: &mut ByteReader,
    protocol: u32,
    checksum_len: usize,
    preserve_uid: bool,
    preserve_gid: bool,
    compat_flags: u32,
) -> (res: Result<Vec<FileInfo>, WireError>)
    ensures
        match res {
            Ok(v) => parse_list(
                old(r)@,
                Seq::empty(),
                protocol,
                checksum_len as nat,
                preserve_uid,
                preserve_gid,
                compat_flags,
            ) == Ok::<(Seq<FileEntry>, Seq<u8>), WireError>((entries(v@), final(r)@)),
            Err(e) => parse_list(
                old(r)@,
                Seq::empty(),
                protocol,
                checksum_len as nat,
                preserve_uid,
                preserve_gid,
                compat_flags,
            ) == Err::<(Seq<FileEntry>, Seq<u8>), WireError>(e),
        },
        reads_on(*old(r), *final(r)),
{
    let varint_flags: bool = has_bit(compat_flags, CF_VARINT_FLIST_FLAGS);
    let mut files: Vec<FileInfo> = Vec::new();
    assert(entries(files@) =~= Seq::<FileEntry>::empty());
    loop
        invariant
            varint_flags == flag_set(compat_flags, CF_VARINT_FLIST_FLAGS),
            reads_on(*old(r), *r),
            parse_list(
                r@,
                entries(files@),
                protocol,
                checksum_len as nat,
                preserve_uid,
                preserve_gid,
                compat_flags,
            ) == parse_list(
                old(r)@,
                Seq::empty(),
                protocol,
                checksum_len as nat,
                preserve_uid,
                preserve_gid,
                compat_flags,
            ),
        decreases r@.len(),
    {
        let x: u32 = match read_flags(r, varint_flags, protocol) {
            Err(e) => return Err(e),
            Ok(x) => x,
        };
        if x == 0 {
            return match read_end(r, protocol, preserve_uid, preserve_gid, compat_flags) {
                Err(e) => Err(e),
                Ok(_) => Ok(files),
            };
        }
        let ghost so_far = entries(files@);
        let f: FileInfo = {
            let prev: Option<&FileInfo> = files.as_slice().last();
            assert(opt_entry(prev) == last_of(so_far));
            match recv_file_entry_inner(
                r,
                x,
                prev,
                protocol,
                checksum_len,
                files.as_slice(),
                0,
            ) {
                Err(e) => return Err(e),
                Ok(f) => f,
            }
        };
        files.push(f);
        assert(entries(files@) =~= so_far.push(f@));
    }
}

fn invert(order: &Vec<usize>, Ghost(fs): Ghost<Seq<FileEntry>>) -> (inverse: Vec<usize>)
    requires
        is_sort_order(fs, positions(order@)),
        forall|i: int| 0 <= i < order@.len() ==> (#[trigger] order@[i]) < order@.len(),
    ensures
        inverse@.len() == order@.len(),
        forall|k: int|
            0 <= k < order@.len() ==> (#[trigger] inverse@[k]) as int == positions(order@).index_of(
                k,
            ),
{
    let n: usize = order.len();
    let mut inverse: Vec<usize> = Vec::new();
    let mut i: usize = 0;
    while i < n
        invariant
            i <= n,
            inverse@.len() == i,
        decreases n - i,
    {
        inverse.push(0);
        i = i + 1;
    }
    let ghost p = positions(order@);
    let mut j: usize = 0;
    while j < n
        invariant
            j <= n == order@.len(),
            inverse@.len() == n,
            p == positions(order@),
            is_sort_order(fs, p),
            forall|a: int| 0 <= a < order@.len() ==> (#[trigger] order@[a]) < order@.len(),
            forall|a: int| 0 <= a < j ==> inverse@[(#[trigger] order@[a]) as int] == a,
        decreases n - j,
    {
        let k: usize = order[j];
        proof {
            assert forall|a: int| 0 <= a < j implies (#[trigger] order@[a]) != k by {
                crate::flist::sort::sort_order_is_injective(fs, p, a, j as int);
                assert(p[a] == order@[a] && p[j as int] == order@[j as int]);
            }
        }
        inverse.set(k, j);
        j = j + 1;
    }
    proof {
        assert forall|k: int| 0 <= k < n implies (#[trigger] inverse@[k]) as int == p.index_of(k) by {
            assert(p.contains(k));
            let a = p.index_of(k);
            assert(0 <= a < p.len() && p[a] == k) by {
                let w = choose|w: int| 0 <= w < p.len() && p[w] == k;
                assert(p[w] == k);
            }
            assert(order@[a] == k);
            assert(inverse@[order@[a] as int] == a);
        }
    }
    inverse
}

/// The received files in sorted order, with their hard-link indices.
fn sort_received(files: &Vec<FileInfo>) -> (sorted: Vec<FileInfo>)
    ensures
        sorted@.len() == files@.len(),
        exists|order: Seq<int>|
            {
                &&& #[trigger] is_sort_order(entries(files@), order)
                &&& entries(sorted@) == received_list(entries(files@), order)
            },
{
    let ghost fs = entries(files@);
    let order: Vec<usize> = sort_order_of(files);
    let ghost p = positions(order@);
    let inverse: Vec<usize> = invert(&order, Ghost(fs));
    let mut sorted: Vec<FileInfo> = arrange(files, &order);
    let n: usize = sorted.len();
    let ghost placed = entries(sorted@);
    let mut i: usize = 0;
    while i < n
        invariant
            i <= n == sorted@.len(),
            n == order@.len() == p.len() == placed.len() == inverse@.len(),
            p == positions(order@),
            placed == arranged(fs, p),
            forall|k: int|
                0 <= k < order@.len() ==> (#[trigger] inverse@[k]) as int == p.index_of(k),
            forall|k: int| 0 <= k < i ==> (#[trigger] sorted@[k])@ == relinked(placed[k], p),
            forall|k: int| i <= k < n ==> (#[trigger] sorted@[k])@ == placed[k],
        decreases n - i,
    {
        let h: i32 = sorted[i].hard_link_first_ndx;
        if h >= 0 && (h as usize) < n {
            let mut f: FileInfo = sorted[i].clone();
            f.hard_link_first_ndx = inverse[h as usize] as i32;
            assert(f@ == relinked(placed[i as int], p));
            sorted.set(i, f);
        }
        i = i + 1;
    }
    assert(entries(sorted@) =~= received_list(fs, p));
    assert(is_sort_order(fs, p));
    sorted
}

/// Reads a whole file list that was sent with every attribute and with flag
/// bits in variable-length form.
pub fn recv_file_list(r: &mut ByteReader, protocol: u32, checksum_len: usize) -> (res: Result<
    FileList,
    WireError,
>)
    ensures
        list_read(
            *old(r),
            *final(r),
            protocol,
            checksum_len,
            true,
            true,
            CF_VARINT_FLIST_FLAGS,
            res,
        ),
{
    recv_file_list_ex(r, protocol, checksum_len, true, true, CF_VARINT_FLIST_FLAGS)
}

/// Whether a list holds the received entries `fs` in sorted order and is
/// fresh otherwise.
pub open spec fn list_holds(l: FileList, fs: Seq<FileEntry>) -> bool {
    &&& exists|order: Seq<int>|
        {
            &&& #[trigger] is_sort_order(fs, order)
            &&& entries(l.files@) == received_list(fs, order)
        }
    &&& l.sorted@ == counting(fs.len())
    &&& l.wf()
    &&& l.ndx_start == 0
    &&& l.flist_num == 0
    &&& l.parent_ndx == 0
    &&& !l.in_progress
    &&& !l.to_redo
}

/// What a reader of a whole list owes.
pub open spec fn list_read(
    before: ByteReader,
    after: ByteReader,
    protocol: u32,
    checksum_len: usize,
    preserve_uid: bool,
    preserve_gid: bool,
    compat_flags: u32,
    res: Result<FileList, WireError>,
) -> bool {
    let parsed = parse_list(
        before@,
        Seq::empty(),
        protocol,
        checksum_len as nat,
        preserve_uid,
        preserve_gid,
        compat_flags,
    );
    match res {
        Ok(l) => parsed matches Ok((fs, rest)) && rest == after@ && list_holds(l, fs),
        Err(e) => parsed == Err::<(Seq<FileEntry>, Seq<u8>), WireError>(e) && after@ == before@,
    }
}

/// Reads a whole file list and puts it into sorted order, so that indices
/// mean the same files on both sides.
pub fn recv_file_list_ex(
    r: &mut ByteReader,
    protocol: u32,
    checksum_len: usize,
    preserve_uid: bool,
    preserve_gid: bool,
    compat_flags: u32,
) -> (res: Result<FileList, WireError>)
    ensures
        list_read(
            *old(r),
            *final(r),
            protocol,
            checksum_len,
            preserve_uid,
            preserve_gid,
            compat_flags,
            res,
        ),
{
    let start: usize = r.position();
    let files: Vec<FileInfo> = match read_entries(
        r,
        protocol,
        checksum_len,
        preserve_uid,
        preserve_gid,
        compat_flags,
    ) {
        Err(e) => {
            r.seek(start);
            return Err(e);
        },
        Ok(v) => v,
    };
    let sorted: Vec<FileInfo> = sort_received(&files);
    let ghost order = choose|order: Seq<int>|
        {
            &&& #[trigger] is_sort_order(entries(files@), order)
            &&& entries(sorted@) == received_list(entries(files@), order)
        };
    assert(is_sort_order(entries(files@), order));
    let indices: Vec<usize> = count_up(files.len());
    let l: FileList = FileList {
        files: sorted,
        sorted: indices,
        ndx_start: 0,
        flist_num: 0,
        parent_ndx: 0,
        in_progress: false,
        to_redo: false,
    };
    assert(l.wf());
    assert(list_holds(l, entries(files@))) by {
        assert(is_sort_order(entries(files@), order));
    }
    Ok(l)
}

} // verus!
