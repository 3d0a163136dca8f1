//! The sending side of the file-list protocol.
//!
//! Every entry starts with flag bits that say which of its fields repeat those
//! of the entry before it; a name is sent without the bytes it shares with
//! the name before it.

use vstd::prelude::*;
use vstd::utf8::encode_utf8;

use crate::flags::{flag_set, has_bit, on};
use crate::io::bytes::{bits64, put_bytes, signed32};
use crate::io::varint::{
    enc_int, enc_shortint, enc_varint, enc_varlong, signed32_of, write_byte, write_int,
    write_shortint, write_varint, write_varint30, write_varlong,
};
use crate::protocol::constants::{
    CF_INC_RECURSE, CF_VARINT_FLIST_FLAGS, XMIT_EXTENDED_FLAGS, XMIT_IO_ERROR_ENDLIST,
    XMIT_LONG_NAME, XMIT_MOD_NSEC, XMIT_SAME_GID, XMIT_SAME_MODE, XMIT_SAME_NAME, XMIT_SAME_TIME,
    XMIT_SAME_UID,
};
use crate::protocol::types::{entries, FileEntry, FileInfo, FileList, FileType};

verus! {

/// Which attributes of the files a transfer keeps.
#[derive(Clone, Copy, Debug, PartialEq, Eq, Structural)]
pub struct Preserve {
    pub uid: bool,
    pub gid: bool,
    pub times: bool,
    pub devices: bool,
}

impl Default for Preserve {
    fn default() -> (p: Preserve)
        ensures
            p == (Preserve { uid: false, gid: false, times: false, devices: false }),
    {
        Preserve { uid: false, gid: false, times: false, devices: false }
    }
}

/// How many leading bytes, up to 255, two names share, given that they share
/// the first `k`.
pub open spec fn shared(a: Seq<u8>, b: Seq<u8>, k: nat) -> nat
    decreases 255 - k,
{
    if k < 255 && k < a.len() && k < b.len() && a[k as int] == b[k as int] {
        shared(a, b, k + 1)
    } else {
        k
    }
}

/// The bytes of the path of the entry before.
pub open spec fn prev_path(prev: Option<FileEntry>) -> Seq<u8> {
    match prev {
        Some(p) => encode_utf8(p.path()),
        None => Seq::empty(),
    }
}

/// How many leading bytes of its path an entry shares with the one before.
pub open spec fn shared_len(prev: Option<FileEntry>, f: FileEntry) -> nat {
    shared(encode_utf8(f.path()), prev_path(prev), 0)
}

/// How many bytes of its path an entry does not share with the one before.
pub open spec fn rest_len(prev: Option<FileEntry>, f: FileEntry) -> int {
    encode_utf8(f.path()).len() - shared_len(prev, f)
}

/// Whether the modification time is left out of an entry.
pub open spec fn skips_time(prev: Option<FileEntry>, f: FileEntry, p: Preserve) -> bool {
    !p.times || (prev matches Some(q) && q.modtime == f.modtime)
}

/// Whether the owner is left out of an entry.
pub open spec fn skips_uid(prev: Option<FileEntry>, f: FileEntry, p: Preserve) -> bool {
    !p.uid || (prev matches Some(q) && q.uid == f.uid)
}

/// Whether the group is left out of an entry.
pub open spec fn skips_gid(prev: Option<FileEntry>, f: FileEntry, p: Preserve) -> bool {
    !p.gid || (prev matches Some(q) && q.gid == f.gid)
}

/// The flag bits that describe an entry, before the empty set is replaced.
pub open spec fn raw_flags(prev: Option<FileEntry>, f: FileEntry, protocol: u32, p: Preserve) -> int {
    on(shared_len(prev, f) > 0, XMIT_SAME_NAME) + on(rest_len(prev, f) > 255, XMIT_LONG_NAME) + on(
        prev matches Some(q) && q.mode == f.mode,
        XMIT_SAME_MODE,
    ) + on(skips_time(prev, f, p), XMIT_SAME_TIME) + on(skips_uid(prev, f, p), XMIT_SAME_UID) + on(
        skips_gid(prev, f, p),
        XMIT_SAME_GID,
    ) + on(f.mod_nsec != 0 && protocol >= 31, XMIT_MOD_NSEC)
}

/// The flag bits of an entry: never empty, since that ends the list; and, in
/// the two-byte form, with the bit that announces the second byte.
pub open spec fn entry_flags(
    prev: Option<FileEntry>,
    f: FileEntry,
    protocol: u32,
    p: Preserve,
    varint_flags: bool,
) -> u32 {
    let x = raw_flags(prev, f, protocol, p);
    if x == 0 {
        XMIT_EXTENDED_FLAGS
    } else if !varint_flags && x >= 256 {
        (x + XMIT_EXTENDED_FLAGS) as u32
    } else {
        x as u32
    }
}

/// Flag bits on the wire.  Where there can be a second byte, the bit that
/// announces it always has one behind it.
pub open spec fn flag_bytes(x: u32, varint_flags: bool, protocol: u32) -> Seq<u8> {
    if varint_flags {
        enc_varint(signed32(x as nat))
    } else if x >= 256 || (protocol >= 28 && flag_set(x, XMIT_EXTENDED_FLAGS)) {
        enc_shortint(x as u16)
    } else {
        seq![x as u8]
    }
}

/// The name of an entry on the wire.
pub open spec fn name_bytes(prev: Option<FileEntry>, f: FileEntry, x: u32) -> Seq<u8> {
    (if flag_set(x, XMIT_SAME_NAME) {
        seq![shared_len(prev, f) as u8]
    } else {
        Seq::empty()
    }) + (if flag_set(x, XMIT_LONG_NAME) {
        enc_varint(rest_len(prev, f) as i32)
    } else {
        seq![rest_len(prev, f) as u8]
    }) + encode_utf8(f.path()).skip(shared_len(prev, f) as int)
}

/// The low 32 bits of a time.
pub open spec fn short_time(t: i64) -> i32 {
    signed32(bits64(t) % 0x1_0000_0000)
}

/// Size and modification time of an entry on the wire.
pub open spec fn time_bytes(f: FileEntry, x: u32, protocol: u32) -> Seq<u8> {
    enc_varlong(f.size, 3) + (if flag_set(x, XMIT_SAME_TIME) {
        Seq::empty()
    } else if protocol >= 30 {
        enc_varlong(f.modtime, 4)
    } else {
        enc_int(short_time(f.modtime))
    }) + (if flag_set(x, XMIT_MOD_NSEC) {
        enc_varint(signed32(f.mod_nsec as nat))
    } else {
        Seq::empty()
    })
}

/// A user or group number on the wire.
pub open spec fn id_bytes(id: u32, protocol: u32) -> Seq<u8> {
    if protocol >= 30 {
        enc_varint(signed32(id as nat))
    } else {
        enc_int(signed32(id as nat))
    }
}

/// Mode, owner and group of an entry on the wire.
pub open spec fn owner_bytes(f: FileEntry, x: u32, protocol: u32, p: Preserve) -> Seq<u8> {
    (if flag_set(x, XMIT_SAME_MODE) {
        Seq::empty()
    } else {
        enc_int(signed32(f.mode as nat))
    }) + (if p.uid && !flag_set(x, XMIT_SAME_UID) {
        id_bytes(f.uid, protocol)
    } else {
        Seq::empty()
    }) + (if p.gid && !flag_set(x, XMIT_SAME_GID) {
        id_bytes(f.gid, protocol)
    } else {
        Seq::empty()
    })
}

/// Whether an entry of this type carries a device number.
pub open spec fn has_rdev(t: FileType, protocol: u32) -> bool {
    t == FileType::Device || (t == FileType::Special && protocol < 31)
}

/// Where a symbolic link points; nowhere is the empty text.
pub open spec fn link_text(f: FileEntry) -> Seq<char> {
    match f.link_target {
        Some(t) => t,
        None => Seq::empty(),
    }
}

/// A checksum cut or filled with zeros to `n` bytes.
pub open spec fn fitted(sum: Option<Seq<u8>>, n: nat) -> Seq<u8> {
    let s = match sum {
        Some(s) => s,
        None => Seq::empty(),
    };
    if s.len() >= n {
        s.take(n as int)
    } else {
        s + Seq::new((n - s.len()) as nat, |i: int| 0u8)
    }
}

/// Device number, link target and checksum of an entry on the wire.
pub open spec fn special_bytes(f: FileEntry, protocol: u32, checksum_len: nat, p: Preserve) -> Seq<
    u8,
> {
    (if p.devices && has_rdev(f.file_type(), protocol) {
        enc_varint(signed32(f.rdev_major as nat)) + id_bytes(f.rdev_minor, protocol)
    } else {
        Seq::empty()
    }) + (if f.file_type() == FileType::Symlink {
        enc_varint(encode_utf8(link_text(f)).len() as i32) + encode_utf8(link_text(f))
    } else {
        Seq::empty()
    }) + (if checksum_len > 0 && f.file_type() == FileType::Regular {
        fitted(f.checksum, checksum_len)
    } else {
        Seq::empty()
    })
}

/// An entry on the wire, behind the entry `prev`.
pub open spec fn entry_bytes(
    prev: Option<FileEntry>,
    f: FileEntry,
    protocol: u32,
    checksum_len: nat,
    p: Preserve,
    varint_flags: bool,
) -> Seq<u8> {
    let x = entry_flags(prev, f, protocol, p, varint_flags);
    flag_bytes(x, varint_flags, protocol) + (name_bytes(prev, f, x) + (time_bytes(f, x, protocol) + (
    owner_bytes(f, x, protocol, p) + special_bytes(f, protocol, checksum_len, p))))
}

/// Entries on the wire, one behind the other, behind the entry `prev`.
pub open spec fn entries_bytes(
    prev: Option<FileEntry>,
    fs: Seq<FileEntry>,
    protocol: u32,
    checksum_len: nat,
    p: Preserve,
    varint_flags: bool,
) -> Seq<u8>
    decreases fs.len(),
{
    if fs.len() == 0 {
        Seq::empty()
    } else {
        entry_bytes(prev, fs[0], protocol, checksum_len, p, varint_flags) + entries_bytes(
            Some(fs[0]),
            fs.skip(1),
            protocol,
            checksum_len,
            p,
            varint_flags,
        )
    }
}

/// The end of a list: the marker, the error code, and the empty tables of
/// user and group names where the protocol has them.
pub open spec fn end_bytes(protocol: u32, io_error: i32, p: Preserve, compat_flags: u32) -> Seq<u8> {
    (if flag_set(compat_flags, CF_VARINT_FLIST_FLAGS) {
        enc_varint(0) + enc_varint(io_error)
    } else if protocol >= 31 || (protocol >= 28 && io_error != 0) {
        enc_shortint((XMIT_EXTENDED_FLAGS + XMIT_IO_ERROR_ENDLIST) as u16) + enc_varint(io_error)
    } else {
        seq![0u8]
    }) + (if protocol < 30 {
        enc_int(io_error)
    } else if !flag_set(compat_flags, CF_INC_RECURSE) {
        (if p.uid {
            enc_varint(0)
        } else {
            Seq::empty()
        }) + (if p.gid {
            enc_varint(0)
        } else {
            Seq::empty()
        })
    } else {
        Seq::empty()
    })
}

/// A whole list on the wire.
pub open spec fn list_bytes(
    fs: Seq<FileEntry>,
    protocol: u32,
    checksum_len: nat,
    io_error: i32,
    p: Preserve,
    compat_flags: u32,
) -> Seq<u8> {
    entries_bytes(
        None,
        fs,
        protocol,
        checksum_len,
        p,
        flag_set(compat_flags, CF_VARINT_FLIST_FLAGS),
    ) + end_bytes(protocol, io_error, p, compat_flags)
}

/// Whether the lengths in an entry can be written down.
pub open spec fn sendable(f: FileEntry) -> bool {
    encode_utf8(f.path()).len() <= i32::MAX && encode_utf8(link_text(f)).len() <= i32::MAX
}

/// The files of a list in the order in which they are sent.
pub open spec fn send_order(l: FileList) -> Seq<FileEntry> {
    if l.sorted@.len() == 0 {
        entries(l.files@)
    } else {
        Seq::new(l.sorted@.len(), |i: int| l.files@[l.sorted@[i] as int]@)
    }
}

// ---------------------------------------------------------------------------
// Facts about the flag bits
// ---------------------------------------------------------------------------

pub proof fn lemma_shared(a: Seq<u8>, b: Seq<u8>, k: nat)
    requires
        k <= 255,
        k <= a.len(),
        k <= b.len(),
        a.take(k as int) == b.take(k as int),
    ensures
        k <= shared(a, b, k) <= 255,
        shared(a, b, k) <= a.len(),
        shared(a, b, k) <= b.len(),
        a.take(shared(a, b, k) as int) == b.take(shared(a, b, k) as int),
    decreases 255 - k,
{
    if k < 255 && k < a.len() && k < b.len() && a[k as int] == b[k as int] {
        assert(a.take((k + 1) as int) =~= a.take(k as int).push(a[k as int]));
        assert(b.take((k + 1) as int) =~= b.take(k as int).push(b[k as int]));
        lemma_shared(a, b, k + 1);
    }
}

pub proof fn lemma_shared_len(prev: Option<FileEntry>, f: FileEntry)
    ensures
        shared_len(prev, f) <= 255,
        shared_len(prev, f) <= encode_utf8(f.path()).len(),
        shared_len(prev, f) <= prev_path(prev).len(),
        encode_utf8(f.path()).take(shared_len(prev, f) as int) == prev_path(prev).take(
            shared_len(prev, f) as int,
        ),
{
    let a = encode_utf8(f.path());
    let b = prev_path(prev);
    assert(a.take(0) =~= b.take(0));
    lemma_shared(a, b, 0);
}

/// What the flag bits of an entry say.
pub proof fn lemma_entry_flags(
    prev: Option<FileEntry>,
    f: FileEntry,
    protocol: u32,
    p: Preserve,
    varint_flags: bool,
)
    ensures
        ({
            let x = entry_flags(prev, f, protocol, p, varint_flags);
            &&& 0 < x < 0x4000
            &&& flag_set(x, XMIT_SAME_NAME) == (shared_len(prev, f) > 0)
            &&& flag_set(x, XMIT_LONG_NAME) == (rest_len(prev, f) > 255)
            &&& flag_set(x, XMIT_SAME_MODE) == (prev matches Some(q) && q.mode == f.mode)
            &&& flag_set(x, XMIT_SAME_TIME) == skips_time(prev, f, p)
            &&& flag_set(x, XMIT_SAME_UID) == skips_uid(prev, f, p)
            &&& flag_set(x, XMIT_SAME_GID) == skips_gid(prev, f, p)
            &&& flag_set(x, XMIT_MOD_NSEC) == (f.mod_nsec != 0 && protocol >= 31)
            &&& !flag_set(x, 0x100)
            &&& !flag_set(x, 0x200)
            &&& !flag_set(x, 0x400)
            &&& !flag_set(x, 0x800)
            &&& !flag_set(x, 0x1000)
            &&& x >= 256 ==> flag_set(x, XMIT_MOD_NSEC) && (flag_set(x, XMIT_EXTENDED_FLAGS) == !varint_flags)
            &&& x < 256 ==> flag_set(x, XMIT_EXTENDED_FLAGS) == (raw_flags(prev, f, protocol, p) == 0)
        }),
{
    lemma_flag_sum(
        shared_len(prev, f) > 0,
        rest_len(prev, f) > 255,
        prev matches Some(q) && q.mode == f.mode,
        skips_time(prev, f, p),
        skips_uid(prev, f, p),
        skips_gid(prev, f, p),
        f.mod_nsec != 0 && protocol >= 31,
        raw_flags(prev, f, protocol, p),
        if raw_flags(prev, f, protocol, p) == 0 || (!varint_flags && raw_flags(prev, f, protocol, p)
            >= 256) {
            true
        } else {
            false
        },
        entry_flags(prev, f, protocol, p, varint_flags),
    );
}

proof fn lemma_flag_sum(
    name: bool,
    long: bool,
    mode: bool,
    time: bool,
    uid: bool,
    gid: bool,
    nsec: bool,
    raw: int,
    ext: bool,
    x: u32,
)
    requires
        raw == on(name, 0x20) + on(long, 0x40) + on(mode, 2) + on(time, 0x80) + on(uid, 8) + on(
            gid,
            0x10,
        ) + on(nsec, 0x2000),
        x == raw + on(ext, 4),
    ensures
        x < 0x4000,
        flag_set(x, 2) == mode,
        flag_set(x, 4) == ext,
        flag_set(x, 8) == uid,
        flag_set(x, 0x10) == gid,
        flag_set(x, 0x20) == name,
        flag_set(x, 0x40) == long,
        flag_set(x, 0x80) == time,
        !flag_set(x, 0x100),
        !flag_set(x, 0x200),
        !flag_set(x, 0x400),
        !flag_set(x, 0x800),
        !flag_set(x, 0x1000),
        flag_set(x, 0x2000) == nsec,
        raw >= 256 <==> nsec,
        x >= 256 <==> nsec,
{
}

// ---------------------------------------------------------------------------
// Writing
// ---------------------------------------------------------------------------

fn shared_of(a: &[u8], b: &[u8]) -> (n: usize)
    ensures
        n == shared(a@, b@, 0),
{
    let mut k: usize = 0;
    while k < 255 && k < a.len() && k < b.len() && a[k] == b[k]
        invariant
            k <= 255,
            shared(a@, b@, 0) == shared(a@, b@, k as nat),
        decreases 255 - k,
    {
        k = k + 1;
    }
    k
}

fn write_flags(w: &mut Vec<u8>, x: u32, varint_flags: bool, protocol: u32)
    requires
        x < 0x1_0000,
    ensures
        final(w)@ == old(w)@ + flag_bytes(x, varint_flags, protocol),
{
    if varint_flags {
        write_varint(w, signed32_of(x));
    } else if x >= 256 || (protocol >= 28 && has_bit(x, XMIT_EXTENDED_FLAGS)) {
        write_shortint(w, x as u16);
    } else {
        write_byte(w, x as u8);
    }
}

fn write_name(
    w: &mut Vec<u8>,
    name: &[u8],
    same: usize,
    x: u32,
    Ghost(prev): Ghost<Option<FileEntry>>,
    Ghost(f): Ghost<FileEntry>,
)
    requires
        name@ == encode_utf8(f.path()),
        same == shared_len(prev, f),
        same <= 255,
        same <= name@.len() <= i32::MAX,
        flag_set(x, XMIT_LONG_NAME) == (rest_len(prev, f) > 255),
    ensures
        final(w)@ == old(w)@ + name_bytes(prev, f, x),
{
    let rest: &[u8] = name.split_at(same).1;
    if has_bit(x, XMIT_SAME_NAME) {
        write_byte(w, same as u8);
    }
    if has_bit(x, XMIT_LONG_NAME) {
        write_varint30(w, rest.len() as i32);
    } else {
        write_byte(w, rest.len() as u8);
    }
    put_bytes(w, rest);
    assert(rest@ =~= encode_utf8(f.path()).skip(shared_len(prev, f) as int));
    assert(w@ =~= old(w)@ + name_bytes(prev, f, x));
}

fn short_time_of(t: i64) -> (s: i32)
    ensures
        s == short_time(t),
{
    let v: u64 = crate::io::varint::bits64_of(t);
    signed32_of((v % 0x1_0000_0000) as u32)
}

fn write_times(w: &mut Vec<u8>, f: &FileInfo, x: u32, protocol: u32)
    ensures
        final(w)@ == old(w)@ + time_bytes(f@, x, protocol),
{
    write_varlong(w, f.size, 3);
    if !has_bit(x, XMIT_SAME_TIME) {
        if protocol >= 30 {
            write_varlong(w, f.modtime, 4);
        } else {
            write_int(w, short_time_of(f.modtime));
        }
    }
    if has_bit(x, XMIT_MOD_NSEC) {
        write_varint(w, signed32_of(f.mod_nsec));
    }
    assert(w@ =~= old(w)@ + time_bytes(f@, x, protocol));
}

fn write_id(w: &mut Vec<u8>, id: u32, protocol: u32)
    ensures
        final(w)@ == old(w)@ + id_bytes(id, protocol),
{
    if protocol >= 30 {
        write_varint(w, signed32_of(id));
    } else {
        write_int(w, signed32_of(id));
    }
}

fn write_owner(w: &mut Vec<u8>, f: &FileInfo, x: u32, protocol: u32, p: Preserve)
    ensures
        final(w)@ == old(w)@ + owner_bytes(f@, x, protocol, p),
{
    if !has_bit(x, XMIT_SAME_MODE) {
        write_int(w, signed32_of(f.mode));
    }
    if p.uid && !has_bit(x, XMIT_SAME_UID) {
        write_id(w, f.uid, protocol);
    }
    if p.gid && !has_bit(x, XMIT_SAME_GID) {
        write_id(w, f.gid, protocol);
    }
    assert(w@ =~= old(w)@ + owner_bytes(f@, x, protocol, p));
}

fn write_fitted(w: &mut Vec<u8>, sum: &Option<Vec<u8>>, n: usize)
    ensures
        final(w)@ == old(w)@ + fitted(crate::protocol::types::opt_bytes(*sum), n as nat),
{
    let ghost start = w@;
    let ghost want = fitted(crate::protocol::types::opt_bytes(*sum), n as nat);
    let mut i: usize = 0;
    match sum {
        Some(s) => {
            while i < n && i < s.len()
                invariant
                    i <= n,
                    i <= s@.len(),
                    want == fitted(Some(s@), n as nat),
                    w@ == start + want.take(i as int),
                decreases n - i,
            {
                w.push(s[i]);
                i = i + 1;
                assert(w@ =~= start + want.take(i as int));
            }
        },
        None => {},
    }
    assert(w@ =~= start + want.take(i as int));
    let ghost from = i;
    while i < n
        invariant
            from <= i <= n,
            want.len() == n,
            forall|k: int| from <= k < n ==> want[k] == 0,
            w@ == start + want.take(i as int),
        decreases n - i,
    {
        w.push(0);
        i = i + 1;
        assert(w@ =~= start + want.take(i as int));
    }
    assert(want.take(n as int) =~= want);
}

fn write_special(w: &mut Vec<u8>, f: &FileInfo, protocol: u32, checksum_len: usize, p: Preserve)
    requires
        sendable(f@),
    ensures
        final(w)@ == old(w)@ + special_bytes(f@, protocol, checksum_len as nat, p),
{
    let t: FileType = f.file_type();
    let rdev: bool = matches!(t, FileType::Device) || (matches!(t, FileType::Special) && protocol
        < 31);
    if p.devices && rdev {
        write_varint30(w, signed32_of(f.rdev_major));
        write_id(w, f.rdev_minor, protocol);
    }
    if t.is_symlink() {
        match &f.link_target {
            Some(s) => {
                let bytes: &[u8] = s.as_str().as_bytes();
                write_varint30(w, bytes.len() as i32);
                put_bytes(w, bytes);
            },
            None => {
                write_varint30(w, 0);
                assert(encode_utf8(link_text(f@)) =~= Seq::<u8>::empty());
            },
        }
    }
    if checksum_len > 0 && t.is_regular() {
        write_fitted(w, &f.checksum, checksum_len);
    }
    assert(w@ =~= old(w)@ + special_bytes(f@, protocol, checksum_len as nat, p));
}

/// The model of an optional entry.
pub open spec fn opt_entry(f: Option<&FileInfo>) -> Option<FileEntry> {
    match f {
        Some(f) => Some(f@),
        None => None,
    }
}

/// How many leading bytes of its path an entry shares with the one before.
fn shared_len_of(name: &[u8], prev: Option<&FileInfo>, Ghost(f): Ghost<FileEntry>) -> (n: usize)
    requires
        name@ == encode_utf8(f.path()),
    ensures
        n == shared_len(opt_entry(prev), f),
{
    match prev {
        Some(q) => {
            let path: String = q.path();
            shared_of(name, path.as_str().as_bytes())
        },
        None => 0,
    }
}

/// The flag bits of an entry.
fn entry_flags_of(
    f: &FileInfo,
    prev: Option<&FileInfo>,
    same: usize,
    rest: usize,
    protocol: u32,
    preserve: Preserve,
    varint_flags: bool,
) -> (x: u32)
    requires
        same == shared_len(opt_entry(prev), f@),
        rest == rest_len(opt_entry(prev), f@),
    ensures
        x == entry_flags(opt_entry(prev), f@, protocol, preserve, varint_flags),
{
    let mut same_mode: bool = false;
    let mut same_time: bool = false;
    let mut same_uid: bool = false;
    let mut same_gid: bool = false;
    match prev {
        Some(q) => {
            same_mode = f.mode == q.mode;
            same_time = f.modtime == q.modtime;
            same_uid = f.uid == q.uid;
            same_gid = f.gid == q.gid;
        },
        None => {},
    }
    let mut x: u32 = 0;
    if same > 0 {
        x = x + XMIT_SAME_NAME;
    }
    if rest > 255 {
        x = x + XMIT_LONG_NAME;
    }
    if same_mode {
        x = x + XMIT_SAME_MODE;
    }
    if !preserve.times || same_time {
        x = x + XMIT_SAME_TIME;
    }
    if !preserve.uid || same_uid {
        x = x + XMIT_SAME_UID;
    }
    if !preserve.gid || same_gid {
        x = x + XMIT_SAME_GID;
    }
    if f.mod_nsec != 0 && protocol >= 31 {
        x = x + XMIT_MOD_NSEC;
    }
    if x == 0 {
        XMIT_EXTENDED_FLAGS
    } else if !varint_flags && x >= 256 {
        x + XMIT_EXTENDED_FLAGS
    } else {
        x
    }
}

proof fn lemma_five(s: Seq<u8>, a: Seq<u8>, b: Seq<u8>, c: Seq<u8>, d: Seq<u8>, e: Seq<u8>)
    ensures
        s + a + b + c + d + e == s + (a + (b + (c + (d + e)))),
{
    assert(s + a + b + c + d + e =~= s + (a + (b + (c + (d + e)))));
}

/// Writes one entry behind the entry `prev`.
pub fn send_file_entry(
    w: &mut Vec<u8>,
    f: &FileInfo,
    prev: Option<&FileInfo>,
    protocol: u32,
    checksum_len: usize,
    preserve: Preserve,
    varint_flags: bool,
)
    requires
        sendable(f@),
    ensures
        final(w)@ == old(w)@ + entry_bytes(
            opt_entry(prev),
            f@,
            protocol,
            checksum_len as nat,
            preserve,
            varint_flags,
        ),
{
    let ghost pv = opt_entry(prev);
    let path: String = f.path();
    let name: &[u8] = path.as_str().as_bytes();
    proof {
        lemma_shared_len(pv, f@);
        lemma_entry_flags(pv, f@, protocol, preserve, varint_flags);
    }
    let same: usize = shared_len_of(name, prev, Ghost(f@));
    let x: u32 = entry_flags_of(
        f,
        prev,
        same,
        name.len() - same,
        protocol,
        preserve,
        varint_flags,
    );
    write_flags(w, x, varint_flags, protocol);
    write_name(w, name, same, x, Ghost(pv), Ghost(f@));
    write_times(w, f, x, protocol);
    write_owner(w, f, x, protocol, preserve);
    write_special(w, f, protocol, checksum_len, preserve);
    proof {
        lemma_five(
            old(w)@,
            flag_bytes(x, varint_flags, protocol),
            name_bytes(pv, f@, x),
            time_bytes(f@, x, protocol),
            owner_bytes(f@, x, protocol, preserve),
            special_bytes(f@, protocol, checksum_len as nat, preserve),
        );
    }
}

fn write_end(w: &mut Vec<u8>, protocol: u32, io_error: i32, preserve: Preserve, compat_flags: u32)
    ensures
        final(w)@ == old(w)@ + end_bytes(protocol, io_error, preserve, compat_flags),
{
    if has_bit(compat_flags, CF_VARINT_FLIST_FLAGS) {
        write_varint(w, 0);
        write_varint(w, io_error);
    } else if protocol >= 31 || (protocol >= 28 && io_error != 0) {
        write_shortint(w, (XMIT_EXTENDED_FLAGS + XMIT_IO_ERROR_ENDLIST) as u16);
        write_varint(w, io_error);
    } else {
        write_byte(w, 0);
    }
    if protocol < 30 {
        write_int(w, io_error);
    } else if !has_bit(compat_flags, CF_INC_RECURSE) {
        if preserve.uid {
            write_varint30(w, 0);
        }
        if preserve.gid {
            write_varint30(w, 0);
        }
    }
    assert(w@ =~= old(w)@ + end_bytes(protocol, io_error, preserve, compat_flags));
}

/// Writes a whole file list with every attribute and flag bits in
/// variable-length form.
pub fn send_file_list(
    w: &mut Vec<u8>,
    flist: &FileList,
    protocol: u32,
    checksum_len: usize,
    io_error: i32,
)
    requires
        flist.wf(),
        forall|i: int| 0 <= i < flist.files@.len() ==> sendable(#[trigger] flist.files@[i]@),
    ensures
        final(w)@ == old(w)@ + list_bytes(
            send_order(*flist),
            protocol,
            checksum_len as nat,
            io_error,
            Preserve { uid: true, gid: true, times: true, devices: true },
            CF_VARINT_FLIST_FLAGS,
        ),
{
    send_file_list_ex(
        w,
        flist,
        protocol,
        checksum_len,
        io_error,
        Preserve { uid: true, gid: true, times: true, devices: true },
        CF_VARINT_FLIST_FLAGS,
    )
}

/// Writes a whole file list.
pub fn send_file_list_ex(
    w: &mut Vec<u8>,
    flist: &FileList,
    protocol: u32,
    checksum_len: usize,
    io_error: i32,
    preserve: Preserve,
    compat_flags: u32,
)
    requires
        flist.wf(),
        forall|i: int| 0 <= i < flist.files@.len() ==> sendable(#[trigger] flist.files@[i]@),
    ensures
        final(w)@ == old(w)@ + list_bytes(
            send_order(*flist),
            protocol,
            checksum_len as nat,
            io_error,
            preserve,
            compat_flags,
        ),
{
    let varint_flags: bool = has_bit(compat_flags, CF_VARINT_FLIST_FLAGS);
    let natural: bool = flist.sorted.len() == 0;
    let n: usize = if natural {
        flist.files.len()
    } else {
        flist.sorted.len()
    };
    let ghost fs = send_order(*flist);
    let ghost start = w@;
    let ghost all = entries_bytes(None, fs, protocol, checksum_len as nat, preserve, varint_flags);
    let mut prev: Option<&FileInfo> = None;
    let mut i: usize = 0;
    proof {
        assert(fs.skip(0) =~= fs);
        assert(w@ + all =~= start + all);
    }
    while i < n
        invariant
            i <= n == fs.len(),
            flist.wf(),
            forall|k: int| 0 <= k < flist.files@.len() ==> sendable(#[trigger] flist.files@[k]@),
            natural == (flist.sorted@.len() == 0),
            fs == send_order(*flist),
            w@ + entries_bytes(
                opt_entry(prev),
                fs.skip(i as int),
                protocol,
                checksum_len as nat,
                preserve,
                varint_flags,
            ) == start + all,
        decreases n - i,
    {
        let k: usize = if natural {
            i
        } else {
            flist.sorted[i]
        };
        let f: &FileInfo = &flist.files[k];
        let ghost before = w@;
        let ghost pv = opt_entry(prev);
        assert(fs[i as int] == f@);
        send_file_entry(w, f, prev, protocol, checksum_len, preserve, varint_flags);
        prev = Some(f);
        i = i + 1;
        proof {
            let rest = fs.skip(i - 1);
            assert(rest[0] == f@);
            assert(rest.skip(1) =~= fs.skip(i as int));
            let e = entry_bytes(pv, f@, protocol, checksum_len as nat, preserve, varint_flags);
            let more = entries_bytes(
                Some(f@),
                fs.skip(i as int),
                protocol,
                checksum_len as nat,
                preserve,
                varint_flags,
            );
            assert(before + (e + more) =~= (before + e) + more);
        }
    }
    assert(w@ =~= start + all);
    write_end(w, protocol, io_error, preserve, compat_flags);
    assert(w@ =~= start + (all + end_bytes(protocol, io_error, preserve, compat_flags)));
}

} // verus!
