//! Batch files: a transfer on record.
//!
//! A batch file starts with eight magic bytes, the option bits, the checksum
//! seed and the protocol, four bytes each.  Then comes the file list, behind
//! its length.  The rest are records: a tag, the index of a file, a length of
//! eight bytes and the file's contents.  An end tag closes the file.

use vstd::prelude::*;

use crate::flags::{flag_set, has_bit, on};
use crate::flist::laws::{all_travel, file_list_without_tables, received_all};
use crate::flist::recv::{list_holds, parse_list, recv_file_list_ex};
use crate::flist::send::{list_bytes, send_file_list_ex, send_order, sendable, Preserve};
use crate::io::bytes::{
    le_bytes, le_bytes_of, le_value, le_value_of, lemma_le_bytes_len, lemma_le_value_bound,
    lemma_le_value_of_bytes, lemma_pow256, put_bytes, ByteReader, WireError,
};
use crate::io::parse::{
    lemma_parse_byte, lemma_parse_bytes, lemma_parse_int, parse_byte, parse_bytes, parse_gives,
    parse_int, Parsed,
};
use crate::io::varint::{enc_int, read_byte, read_int, write_byte, write_int};
use crate::options::Options;
use crate::protocol::constants::{CF_VARINT_FLIST_FLAGS, PROTOCOL_VERSION};
use crate::protocol::types::{FileEntry, FileList};
use crate::text::{chars_of, is_white, string_of, texts};

verus! {

/// Recursive.
pub const BFLAG_RECURSE: u32 = 0x1;

/// Owners are kept.
pub const BFLAG_OWNER: u32 = 0x2;

/// Groups are kept.
pub const BFLAG_GROUP: u32 = 0x4;

/// Symbolic links are kept.
pub const BFLAG_LINKS: u32 = 0x8;

/// Devices are kept.
pub const BFLAG_DEVICES: u32 = 0x10;

/// Hard links are kept.
pub const BFLAG_HARD_LINKS: u32 = 0x20;

/// Files are told apart by checksum.
pub const BFLAG_CHECKSUM: u32 = 0x40;

/// Data is compressed.
pub const BFLAG_COMPRESS: u32 = 0x100;

const TAG_FILE: u8 = 0x01;

const TAG_END: u8 = 0xff;

/// The eight bytes that a batch file starts with.
pub open spec fn batch_magic() -> Seq<u8> {
    seq![0x52, 0x53, 0x59, 0x4e, 0x42, 0x41, 0x54, 0x31]
}

/// What is wrong with a batch file.
#[derive(Clone, Copy, Debug, PartialEq, Eq, Structural)]
pub enum BatchError {
    /// The magic bytes are not there.
    NotABatch,
    /// A record has an unknown tag.
    UnknownTag(u8),
    /// A part is cut off or malformed.
    Wire(WireError),
}

// ---------------------------------------------------------------------------
// Option bits
// ---------------------------------------------------------------------------

/// The option bits of a transfer.
pub open spec fn option_bits(o: Options) -> int {
    on(o.recursive || o.archive, BFLAG_RECURSE) + on(o.owner || o.archive, BFLAG_OWNER) + on(
        o.group || o.archive,
        BFLAG_GROUP,
    ) + on(o.links || o.archive, BFLAG_LINKS) + on(o.devices || o.archive, BFLAG_DEVICES) + on(
        o.hard_links,
        BFLAG_HARD_LINKS,
    ) + on(o.checksum, BFLAG_CHECKSUM) + on(o.compress, BFLAG_COMPRESS)
}

/// The options with those that the bits speak of set as they say.
pub open spec fn options_from_bits(flags: u32, o: Options) -> Options {
    Options {
        recursive: flag_set(flags, BFLAG_RECURSE),
        owner: flag_set(flags, BFLAG_OWNER),
        group: flag_set(flags, BFLAG_GROUP),
        links: flag_set(flags, BFLAG_LINKS),
        devices: flag_set(flags, BFLAG_DEVICES),
        hard_links: flag_set(flags, BFLAG_HARD_LINKS),
        checksum: flag_set(flags, BFLAG_CHECKSUM),
        compress: flag_set(flags, BFLAG_COMPRESS),
        ..o
    }
}

fn bit_if(b: bool, bit: u32) -> (n: u32)
    ensures
        n == on(b, bit),
{
    if b {
        bit
    } else {
        0
    }
}

/// The option bits of a transfer.
pub fn stream_flags(opts: &Options) -> (f: u32)
    ensures
        f == option_bits(*opts),
{
    bit_if(opts.recursive || opts.archive, BFLAG_RECURSE) + bit_if(
        opts.owner || opts.archive,
        BFLAG_OWNER,
    ) + bit_if(opts.group || opts.archive, BFLAG_GROUP) + bit_if(
        opts.links || opts.archive,
        BFLAG_LINKS,
    ) + bit_if(opts.devices || opts.archive, BFLAG_DEVICES) + bit_if(
        opts.hard_links,
        BFLAG_HARD_LINKS,
    ) + bit_if(opts.checksum, BFLAG_CHECKSUM) + bit_if(opts.compress, BFLAG_COMPRESS)
}

/// Sets the options that the bits speak of.
pub fn apply_stream_flags(flags: u32, opts: &mut Options)
    ensures
        *final(opts) == options_from_bits(flags, *old(opts)),
{
    opts.recursive = has_bit(flags, BFLAG_RECURSE);
    opts.owner = has_bit(flags, BFLAG_OWNER);
    opts.group = has_bit(flags, BFLAG_GROUP);
    opts.links = has_bit(flags, BFLAG_LINKS);
    opts.devices = has_bit(flags, BFLAG_DEVICES);
    opts.hard_links = has_bit(flags, BFLAG_HARD_LINKS);
    opts.checksum = has_bit(flags, BFLAG_CHECKSUM);
    opts.compress = has_bit(flags, BFLAG_COMPRESS);
}

// ---------------------------------------------------------------------------
// Header, list and records
// ---------------------------------------------------------------------------

/// An unsigned number of four bytes.
pub open spec fn enc_u32(x: u32) -> Seq<u8> {
    le_bytes(x as nat, 4)
}

/// An unsigned number of eight bytes.
pub open spec fn enc_u64(x: u64) -> Seq<u8> {
    le_bytes(x as nat, 8)
}

/// Reads an unsigned number of four bytes.
pub open spec fn parse_u32(buf: Seq<u8>) -> Parsed<u32> {
    match parse_bytes(buf, 4) {
        Ok((b, rest)) => Ok((le_value(b) as u32, rest)),
        Err(e) => Err(e),
    }
}

/// Reads an unsigned number of eight bytes.
pub open spec fn parse_u64(buf: Seq<u8>) -> Parsed<u64> {
    match parse_bytes(buf, 8) {
        Ok((b, rest)) => Ok((le_value(b) as u64, rest)),
        Err(e) => Err(e),
    }
}

/// The front of a batch file.
pub open spec fn header_bytes(flags: u32, seed: i32, protocol: u32) -> Seq<u8> {
    batch_magic() + enc_u32(flags) + enc_int(seed) + enc_u32(protocol)
}

/// What a batch file keeps of its files.
pub open spec fn batch_preserve(uid: bool, gid: bool) -> Preserve {
    Preserve { uid, gid, times: true, devices: false }
}

/// The file list of a batch file, behind its length.
pub open spec fn flist_bytes(list: FileList, uid: bool, gid: bool) -> Seq<u8> {
    let blob = list_bytes(
        send_order(list),
        PROTOCOL_VERSION,
        4,
        0,
        batch_preserve(uid, gid),
        CF_VARINT_FLIST_FLAGS,
    );
    enc_u32(blob.len() as u32) + blob
}

/// A record.
pub open spec fn record_bytes(ndx: i32, content: Seq<u8>) -> Seq<u8> {
    seq![0x01u8] + enc_int(ndx) + enc_u64(content.len() as u64) + content
}

/// The header at the front of `buf`: the option bits, the seed, the protocol,
/// and what comes behind.
pub open spec fn parse_header(buf: Seq<u8>) -> Result<(u32, i32, u32, Seq<u8>), BatchError> {
    match parse_bytes(buf, 8) {
        Err(e) => Err(BatchError::Wire(e)),
        Ok((magic, rest)) => if magic != batch_magic() {
            Err(BatchError::NotABatch)
        } else {
            match parse_u32(rest) {
                Err(e) => Err(BatchError::Wire(e)),
                Ok((flags, rest)) => match parse_int(rest) {
                    Err(e) => Err(BatchError::Wire(e)),
                    Ok((seed, rest)) => match parse_u32(rest) {
                        Err(e) => Err(BatchError::Wire(e)),
                        Ok((protocol, rest)) => Ok((flags, seed, protocol, rest)),
                    },
                },
            }
        },
    }
}

/// The bytes of the file list at the front of `buf`, and what comes behind.
pub open spec fn parse_blob(buf: Seq<u8>) -> Parsed<Seq<u8>> {
    match parse_u32(buf) {
        Err(e) => Err(e),
        Ok((n, rest)) => parse_bytes(rest, n as int),
    }
}

/// The entries of the file list at the front of `buf`, and what comes behind.
/// The tables of users and groups at its end are passed over.
pub open spec fn parse_flist(buf: Seq<u8>, protocol: u32) -> Parsed<Seq<FileEntry>> {
    match parse_blob(buf) {
        Err(e) => Err(e),
        Ok((blob, rest)) => match parse_list(
            blob,
            Seq::empty(),
            protocol,
            4,
            false,
            false,
            CF_VARINT_FLIST_FLAGS,
        ) {
            Err(e) => Err(e),
            Ok((fs, _)) => Ok((fs, rest)),
        },
    }
}

/// The record at the front of `buf`, nothing at the end tag, and what comes
/// behind.
pub open spec fn parse_record(buf: Seq<u8>) -> Result<
    (Option<(i32, Seq<u8>)>, Seq<u8>),
    BatchError,
> {
    match parse_byte(buf) {
        Err(e) => Err(BatchError::Wire(e)),
        Ok((tag, rest)) => if tag == 0xff {
            Ok((None, rest))
        } else if tag != 0x01 {
            Err(BatchError::UnknownTag(tag))
        } else {
            match parse_int(rest) {
                Err(e) => Err(BatchError::Wire(e)),
                Ok((ndx, rest)) => match parse_u64(rest) {
                    Err(e) => Err(BatchError::Wire(e)),
                    Ok((n, rest)) => match parse_bytes(rest, n as int) {
                        Err(e) => Err(BatchError::Wire(e)),
                        Ok((content, rest)) => Ok((Some((ndx, content)), rest)),
                    },
                },
            }
        },
    }
}

fn write_u32(w: &mut Vec<u8>, x: u32)
    ensures
        final(w)@ == old(w)@ + enc_u32(x),
{
    let b: Vec<u8> = le_bytes_of(x as u64, 4);
    put_bytes(w, b.as_slice());
}

fn write_u64(w: &mut Vec<u8>, x: u64)
    ensures
        final(w)@ == old(w)@ + enc_u64(x),
{
    let b: Vec<u8> = le_bytes_of(x, 8);
    put_bytes(w, b.as_slice());
}

fn read_u32(r: &mut ByteReader) -> (res: Result<u32, WireError>)
    ensures
        parse_gives(parse_u32(old(r)@), final(r)@, res),
        res is Err ==> final(r)@ == old(r)@,
        forall|q: nat| #[trigger] final(r).at(q) == old(r).at(q),
{
    proof {
        reveal(parse_bytes);
    }
    match r.take_bytes(4) {
        Err(e) => Err(e),
        Ok(b) => {
            proof {
                lemma_le_value_bound(b@);
                lemma_pow256();
            }
            Ok(le_value_of(b.as_slice()) as u32)
        },
    }
}

fn read_u64(r: &mut ByteReader) -> (res: Result<u64, WireError>)
    ensures
        parse_gives(parse_u64(old(r)@), final(r)@, res),
        res is Err ==> final(r)@ == old(r)@,
        forall|q: nat| #[trigger] final(r).at(q) == old(r).at(q),
{
    proof {
        reveal(parse_bytes);
    }
    match r.take_bytes(8) {
        Err(e) => Err(e),
        Ok(b) => Ok(le_value_of(b.as_slice())),
    }
}

fn magic_bytes() -> (v: Vec<u8>)
    ensures
        v@ == batch_magic(),
{
    let v: Vec<u8> = vec![0x52, 0x53, 0x59, 0x4e, 0x42, 0x41, 0x54, 0x31];
    assert(v@ =~= batch_magic());
    v
}

/// Writes a batch file.
pub struct BatchWriter {
    out: Vec<u8>,
}

impl View for BatchWriter {
    type V = Seq<u8>;

    closed spec fn view(&self) -> Seq<u8> {
        self.out@
    }
}

impl BatchWriter {
    /// Starts a batch file with its header.
    pub fn create(opts: &Options) -> (w: BatchWriter)
        ensures
            w@ == header_bytes(option_bits(*opts) as u32, 0, PROTOCOL_VERSION),
    {
        let mut out: Vec<u8> = magic_bytes();
        write_u32(&mut out, stream_flags(opts));
        write_int(&mut out, 0);
        write_u32(&mut out, PROTOCOL_VERSION);
        BatchWriter { out }
    }

    /// Adds the file list.
    pub fn write_flist(&mut self, flist: &FileList, preserve_uid: bool, preserve_gid: bool)
        requires
            flist.wf(),
            forall|i: int| 0 <= i < flist.files@.len() ==> sendable(#[trigger] flist.files@[i]@),
        ensures
            final(self)@ == old(self)@ + flist_bytes(*flist, preserve_uid, preserve_gid),
    {
        let preserve: Preserve = Preserve {
            uid: preserve_uid,
            gid: preserve_gid,
            times: true,
            devices: false,
        };
        let mut blob: Vec<u8> = Vec::new();
        send_file_list_ex(
            &mut blob,
            flist,
            PROTOCOL_VERSION,
            4,
            0,
            preserve,
            CF_VARINT_FLIST_FLAGS,
        );
        let ghost start = self.out@;
        write_u32(&mut self.out, blob.len() as u32);
        put_bytes(&mut self.out, blob.as_slice());
        assert(self.out@ =~= start + flist_bytes(*flist, preserve_uid, preserve_gid));
    }

    /// Adds the contents of a file.
    pub fn write_file(&mut self, ndx: i32, content: &[u8])
        ensures
            final(self)@ == old(self)@ + record_bytes(ndx, content@),
    {
        let ghost start = self.out@;
        write_byte(&mut self.out, TAG_FILE);
        write_int(&mut self.out, ndx);
        write_u64(&mut self.out, content.len() as u64);
        put_bytes(&mut self.out, content);
        assert(self.out@ =~= start + record_bytes(ndx, content@));
    }

    /// Adds the end tag.
    pub fn finish(&mut self)
        ensures
            final(self)@ == old(self)@.push(0xff),
    {
        write_byte(&mut self.out, TAG_END);
        assert(self.out@ =~= old(self)@.push(0xff));
    }

    /// The batch file.
    pub fn into_bytes(self) -> (out: Vec<u8>)
        ensures
            out@ == self@,
    {
        self.out
    }
}

/// Reads a batch file.
pub struct BatchReader {
    pub inner: ByteReader,
    pub stream_flags: u32,
    pub checksum_seed: i32,
    pub protocol: u32,
}

impl BatchReader {
    /// Reads the header of a batch file.
    pub fn open(data: Vec<u8>) -> (res: Result<BatchReader, BatchError>)
        ensures
            match res {
                Ok(b) => parse_header(data@) == Ok::<(u32, i32, u32, Seq<u8>), BatchError>(
                    (b.stream_flags, b.checksum_seed, b.protocol, b.inner@),
                ),
                Err(e) => parse_header(data@) == Err::<(u32, i32, u32, Seq<u8>), BatchError>(e),
            },
    {
        proof {
            reveal(parse_bytes);
            reveal(parse_int);
        }
        let mut r: ByteReader = ByteReader::new(data);
        let magic: Vec<u8> = match r.take_bytes(8) {
            Err(e) => return Err(BatchError::Wire(e)),
            Ok(m) => m,
        };
        let want: Vec<u8> = magic_bytes();
        let mut i: usize = 0;
        while i < 8
            invariant
                i <= 8,
                magic@.len() == 8,
                want@ == batch_magic(),
                forall|k: int| 0 <= k < i ==> magic@[k] == want@[k],
                parse_bytes(data@, 8) == Ok::<(Seq<u8>, Seq<u8>), WireError>((magic@, r@)),
            decreases 8 - i,
        {
            if magic[i] != want[i] {
                return Err(BatchError::NotABatch);
            }
            i = i + 1;
        }
        assert(magic@ =~= batch_magic());
        let stream_flags: u32 = match read_u32(&mut r) {
            Err(e) => return Err(BatchError::Wire(e)),
            Ok(x) => x,
        };
        let checksum_seed: i32 = match read_int(&mut r) {
            Err(e) => return Err(BatchError::Wire(e)),
            Ok(x) => x,
        };
        let protocol: u32 = match read_u32(&mut r) {
            Err(e) => return Err(BatchError::Wire(e)),
            Ok(x) => x,
        };
        Ok(BatchReader { inner: r, stream_flags, checksum_seed, protocol })
    }

    /// Reads the file list.
    pub fn read_flist(&mut self) -> (res: Result<FileList, WireError>)
        ensures
            final(self).stream_flags == old(self).stream_flags,
            final(self).checksum_seed == old(self).checksum_seed,
            final(self).protocol == old(self).protocol,
            match res {
                Ok(l) => parse_flist(old(self).inner@, old(self).protocol) matches Ok((fs, rest))
                    && list_holds(l, fs) && final(self).inner@ == rest,
                Err(e) => parse_flist(old(self).inner@, old(self).protocol) == Err::<
                    (Seq<FileEntry>, Seq<u8>),
                    WireError,
                >(e),
            },
            match parse_blob(old(self).inner@) {
                Ok((_, rest)) => final(self).inner@ == rest,
                Err(_) => final(self).inner@ == old(self).inner@,
            },
    {
        proof {
            reveal(parse_bytes);
        }
        let start: usize = self.inner.position();
        let n: u32 = match read_u32(&mut self.inner) {
            Err(e) => return Err(e),
            Ok(n) => n,
        };
        let blob: Vec<u8> = match self.inner.take_bytes(n as usize) {
            Err(e) => {
                self.inner.seek(start);
                return Err(e);
            },
            Ok(b) => b,
        };
        let mut r: ByteReader = ByteReader::new(blob);
        recv_file_list_ex(&mut r, self.protocol, 4, false, false, CF_VARINT_FLIST_FLAGS)
    }

    /// Reads a record; nothing at the end tag.
    pub fn read_record(&mut self) -> (res: Result<Option<(i32, Vec<u8>)>, BatchError>)
        ensures
            final(self).stream_flags == old(self).stream_flags,
            final(self).checksum_seed == old(self).checksum_seed,
            final(self).protocol == old(self).protocol,
            match res {
                Ok(Some((ndx, content))) => parse_record(old(self).inner@) == Ok::<
                    (Option<(i32, Seq<u8>)>, Seq<u8>),
                    BatchError,
                >((Some((ndx, content@)), final(self).inner@)),
                Ok(None) => parse_record(old(self).inner@) == Ok::<
                    (Option<(i32, Seq<u8>)>, Seq<u8>),
                    BatchError,
                >((None, final(self).inner@)),
                Err(e) => parse_record(old(self).inner@) == Err::<
                    (Option<(i32, Seq<u8>)>, Seq<u8>),
                    BatchError,
                >(e),
            },
    {
        proof {
            reveal(parse_bytes);
            reveal(parse_byte);
            reveal(parse_int);
        }
        let tag: u8 = match read_byte(&mut self.inner) {
            Err(e) => return Err(BatchError::Wire(e)),
            Ok(t) => t,
        };
        if tag == TAG_END {
            return Ok(None);
        }
        if tag != TAG_FILE {
            return Err(BatchError::UnknownTag(tag));
        }
        let ndx: i32 = match read_int(&mut self.inner) {
            Err(e) => return Err(BatchError::Wire(e)),
            Ok(x) => x,
        };
        let n: u64 = match read_u64(&mut self.inner) {
            Err(e) => return Err(BatchError::Wire(e)),
            Ok(x) => x,
        };
        if n > self.inner.remaining() as u64 {
            return Err(BatchError::Wire(WireError::UnexpectedEof));
        }
        match self.inner.take_bytes(n as usize) {
            Err(e) => Err(BatchError::Wire(e)),
            Ok(content) => Ok(Some((ndx, content))),
        }
    }
}

// ---------------------------------------------------------------------------
// The script that replays a batch
// ---------------------------------------------------------------------------

/// Whether `char::is_alphanumeric` holds of a character outside ASCII that is
/// not white space.
pub uninterp spec fn unicode_alphanumeric(c: char) -> bool;

/// Whether a character is a letter or a digit.
pub open spec fn is_alphanumeric(c: char) -> bool {
    if c <= '\u{7f}' {
        ('a' <= c <= 'z') || ('A' <= c <= 'Z') || ('0' <= c <= '9')
    } else {
        !is_white(c) && unicode_alphanumeric(c)
    }
}

/// Calls `char::is_alphanumeric`: within ASCII the letters and digits; beyond
/// it no white space, whose characters are neither alphabetic nor numeric in
/// Unicode; of the others its tables decide, which is left unsaid.
#[verifier::external_body]
fn alphanumeric(c: char) -> (b: bool)
    ensures
        b == (if c <= '\u{7f}' {
            ('a' <= c <= 'z') || ('A' <= c <= 'Z') || ('0' <= c <= '9')
        } else {
            !is_white(c) && unicode_alphanumeric(c)
        }),
{
    c.is_alphanumeric()
}

/// Whether a character can stand in a shell word without quotes.
pub open spec fn is_plain(c: char) -> bool {
    is_alphanumeric(c) || c == '_' || c == '-' || c == '.' || c == '/' || c == ':' || c == '='
}

/// Whether a text can be a shell word without quotes.
pub open spec fn all_plain(s: Seq<char>) -> bool {
    forall|i: int| 0 <= i < s.len() ==> is_plain(#[trigger] s[i])
}

/// A character between single quotes.
pub open spec fn escaped_char(c: char) -> Seq<char> {
    if c == '\'' {
        seq!['\'', '\\', '\'', '\'']
    } else {
        seq![c]
    }
}

/// A text between single quotes.
pub open spec fn escaped(s: Seq<char>) -> Seq<char>
    decreases s.len(),
{
    if s.len() == 0 {
        Seq::empty()
    } else {
        escaped_char(s[0]) + escaped(s.skip(1))
    }
}

/// A text as a shell word.
pub open spec fn quoted(s: Seq<char>) -> Seq<char> {
    if all_plain(s) {
        s
    } else {
        seq!['\''] + escaped(s) + seq!['\'']
    }
}

/// A piece `n` times.
pub open spec fn repeated(piece: Seq<char>, n: nat) -> Seq<char>
    decreases n,
{
    if n == 0 {
        Seq::empty()
    } else {
        repeated(piece, (n - 1) as nat) + piece
    }
}

/// A piece where `b` holds.
pub open spec fn piece_if(b: bool, piece: Seq<char>) -> Seq<char> {
    if b {
        piece
    } else {
        Seq::empty()
    }
}

/// The options that keep attributes, as the script passes them.
pub open spec fn script_attributes(o: Options) -> Seq<char> {
    if o.archive {
        " -a"@
    } else {
        Seq::empty() + piece_if(o.recursive, " -r"@) + piece_if(o.links, " -l"@) + piece_if(
            o.perms,
            " -p"@,
        ) + piece_if(o.times, " -t"@) + piece_if(o.group, " -g"@) + piece_if(o.owner, " -o"@)
    }
}

/// The excluded patterns, as the script passes them.
pub open spec fn script_excludes(patterns: Seq<Seq<char>>) -> Seq<char>
    decreases patterns.len(),
{
    if patterns.len() == 0 {
        Seq::empty()
    } else {
        script_excludes(patterns.drop_last()) + " --exclude="@ + quoted(patterns.last())
    }
}

/// The lines in front of the command of the script.
pub open spec fn script_head(batch_path: Seq<char>) -> Seq<char> {
    "#!/bin/sh\n# rsync-rs batch script \u{2014} replay with: sh "@ + batch_path
        + ".sh [DEST]\n\nrsync-rs"@
}

/// The command of the script behind the attributes.
pub open spec fn script_tail(batch_path: Seq<char>, o: Options) -> Seq<char> {
    repeated(" -v"@, o.verbose as nat) + piece_if(o.checksum, " --checksum"@) + piece_if(
        o.compress,
        " --compress"@,
    ) + piece_if(o.delete, " --delete"@) + script_excludes(texts(o.exclude@)) + " --read-batch="@
        + quoted(batch_path) + " \"${1:-DEST}\"\n"@
}

/// The script that replays a batch.
pub open spec fn script_text(batch_path: Seq<char>, o: Options) -> Seq<char> {
    script_head(batch_path) + script_attributes(o) + script_tail(batch_path, o)
}

spec fn longer(before: String, after: String, piece: Seq<char>) -> bool {
    after@ == before@ + piece
}

fn push_if(s: &mut String, b: bool, piece: &str)
    ensures
        longer(*old(s), *final(s), piece_if(b, piece@)),
{
    if b {
        s.push_str(piece);
    }
    assert(s@ =~= old(s)@ + piece_if(b, piece@));
}

fn plain(c: char) -> (b: bool)
    ensures
        b == is_plain(c),
{
    alphanumeric(c) || c == '_' || c == '-' || c == '.' || c == '/' || c == ':' || c == '='
}

fn bare_word(chars: &Vec<char>) -> (b: bool)
    ensures
        b == all_plain(chars@),
{
    let mut i: usize = 0;
    while i < chars.len()
        invariant
            i <= chars@.len(),
            forall|k: int| 0 <= k < i ==> is_plain(#[trigger] chars@[k]),
        decreases chars@.len() - i,
    {
        if !plain(chars[i]) {
            assert(!is_plain(chars@[i as int]));
            return false;
        }
        i = i + 1;
    }
    true
}

/// A text as a shell word.
pub fn shell_quote(s: &str) -> (out: String)
    ensures
        out@ == quoted(s@),
{
    let chars: Vec<char> = chars_of(s);
    if bare_word(&chars) {
        return string_of(chars.as_slice());
    }
    let mut out: String = String::new();
    out.push('\'');
    let mut k: usize = 0;
    assert(s@.skip(0) =~= s@);
    assert(out@ =~= seq!['\'']);
    while k < chars.len()
        invariant
            k <= chars@.len(),
            chars@ == s@,
            out@ + escaped(s@.skip(k as int)) == seq!['\''] + escaped(s@),
        decreases chars@.len() - k,
    {
        let c: char = chars[k];
        let ghost before = out@;
        let ghost rest = s@.skip(k as int);
        assert(rest.skip(1) =~= s@.skip(k + 1));
        if c == '\'' {
            out.push('\'');
            out.push('\\');
            out.push('\'');
            out.push('\'');
        } else {
            out.push(c);
        }
        assert(out@ =~= before + escaped_char(c));
        assert(out@ + escaped(rest.skip(1)) =~= before + (escaped_char(c) + escaped(rest.skip(1))));
        k = k + 1;
    }
    assert(out@ + escaped(s@.skip(k as int)) =~= out@);
    out.push('\'');
    assert(out@ =~= quoted(s@));
    out
}

fn push_attributes(s: &mut String, opts: &Options)
    ensures
        longer(*old(s), *final(s), script_attributes(*opts)),
{
    let mut t: String = String::new();
    if opts.archive {
        t.push_str(" -a");
        assert(t@ =~= " -a"@);
    } else {
        push_if(&mut t, opts.recursive, " -r");
        push_if(&mut t, opts.links, " -l");
        push_if(&mut t, opts.perms, " -p");
        push_if(&mut t, opts.times, " -t");
        push_if(&mut t, opts.group, " -g");
        push_if(&mut t, opts.owner, " -o");
    }
    assert(t@ == script_attributes(*opts));
    s.push_str(t.as_str());
}

fn push_repeated(s: &mut String, piece: &str, n: u32)
    ensures
        longer(*old(s), *final(s), repeated(piece@, n as nat)),
{
    let mut i: u32 = 0;
    assert(s@ =~= old(s)@ + repeated(piece@, 0));
    while i < n
        invariant
            i <= n,
            s@ == old(s)@ + repeated(piece@, i as nat),
        decreases n - i,
    {
        s.push_str(piece);
        i = i + 1;
        assert(s@ =~= old(s)@ + repeated(piece@, i as nat));
    }
}

fn push_excludes(s: &mut String, patterns: &Vec<String>)
    ensures
        longer(*old(s), *final(s), script_excludes(texts(patterns@))),
{
    let ghost all = texts(patterns@);
    let mut i: usize = 0;
    assert(s@ =~= old(s)@ + script_excludes(all.take(0)));
    while i < patterns.len()
        invariant
            i <= patterns@.len(),
            all == texts(patterns@),
            s@ == old(s)@ + script_excludes(all.take(i as int)),
        decreases patterns@.len() - i,
    {
        let word: String = shell_quote(patterns[i].as_str());
        s.push_str(" --exclude=");
        s.push_str(word.as_str());
        proof {
            let next = all.take(i + 1);
            assert(next.drop_last() =~= all.take(i as int));
            assert(s@ =~= old(s)@ + script_excludes(next));
        }
        i = i + 1;
    }
    assert(all.take(i as int) =~= all);
}

fn push_tail(s: &mut String, batch_path: &str, opts: &Options)
    ensures
        longer(*old(s), *final(s), script_tail(batch_path@, *opts)),
{
    let mut t: String = String::new();
    push_repeated(&mut t, " -v", opts.verbose as u32);
    assert(t@ =~= repeated(" -v"@, opts.verbose as nat));
    push_if(&mut t, opts.checksum, " --checksum");
    push_if(&mut t, opts.compress, " --compress");
    push_if(&mut t, opts.delete, " --delete");
    push_excludes(&mut t, &opts.exclude);
    t.push_str(" --read-batch=");
    let word: String = shell_quote(batch_path);
    t.push_str(word.as_str());
    t.push_str(" \"${1:-DEST}\"\n");
    assert(t@ == script_tail(batch_path@, *opts));
    s.push_str(t.as_str());
}

/// Writes the script that replays a batch: `BATCH.sh` runs the transfer of
/// `BATCH` again.
pub fn write_shell_script(batch_path: &str, opts: &Options) -> (s: String)
    ensures
        s@ == script_text(batch_path@, *opts),
{
    let mut s: String = String::new();
    s.push_str("#!/bin/sh\n# rsync-rs batch script \u{2014} replay with: sh ");
    s.push_str(batch_path);
    s.push_str(".sh [DEST]\n\nrsync-rs");
    assert(s@ =~= script_head(batch_path@));
    push_attributes(&mut s, opts);
    push_tail(&mut s, batch_path, opts);
    s
}

// ---------------------------------------------------------------------------
// Laws
// ---------------------------------------------------------------------------

proof fn lemma_parse_u32(x: u32, tail: Seq<u8>)
    ensures
        parse_u32(enc_u32(x) + tail) == Ok::<(u32, Seq<u8>), WireError>((x, tail)),
{
    lemma_le_bytes_len(x as nat, 4);
    lemma_pow256();
    lemma_le_value_of_bytes(x as nat, 4);
    lemma_parse_bytes(enc_u32(x), tail);
}

proof fn lemma_parse_u64(x: u64, tail: Seq<u8>)
    ensures
        parse_u64(enc_u64(x) + tail) == Ok::<(u64, Seq<u8>), WireError>((x, tail)),
{
    lemma_le_bytes_len(x as nat, 8);
    lemma_pow256();
    lemma_le_value_of_bytes(x as nat, 8);
    lemma_parse_bytes(enc_u64(x), tail);
}

/// The header of a batch file is read back as it was written.
pub proof fn batch_header_round_trip(flags: u32, seed: i32, protocol: u32, tail: Seq<u8>)
    ensures
        parse_header(header_bytes(flags, seed, protocol) + tail) == Ok::<
            (u32, i32, u32, Seq<u8>),
            BatchError,
        >((flags, seed, protocol, tail)),
{
    let a = batch_magic();
    let b = enc_u32(flags);
    let c = enc_int(seed);
    let d = enc_u32(protocol);
    assert(header_bytes(flags, seed, protocol) + tail =~= a + (b + (c + (d + tail))));
    assert(a.len() == 8);
    lemma_parse_bytes(a, b + (c + (d + tail)));
    lemma_parse_u32(flags, c + (d + tail));
    lemma_parse_int(seed, d + tail);
    lemma_parse_u32(protocol, tail);
}

/// The bytes of a file list are found again behind their length, as long as
/// it fits in four bytes.
pub proof fn batch_list_round_trip(blob: Seq<u8>, tail: Seq<u8>)
    requires
        blob.len() <= u32::MAX,
    ensures
        parse_blob(enc_u32(blob.len() as u32) + blob + tail) == Ok::<(Seq<u8>, Seq<u8>), WireError>(
            (blob, tail),
        ),
{
    assert(enc_u32(blob.len() as u32) + blob + tail =~= enc_u32(blob.len() as u32) + (blob + tail));
    lemma_parse_u32(blob.len() as u32, blob + tail);
    lemma_parse_bytes(blob, tail);
}

/// A file list that was written, with or without owners and groups, is read
/// entry by entry in the order in which it was written, each entry with the
/// fields that the batch keeps.
pub proof fn batch_entries_round_trip(list: FileList, uid: bool, gid: bool, tail: Seq<u8>)
    requires
        all_travel(send_order(list), PROTOCOL_VERSION, batch_preserve(uid, gid)),
        flist_bytes(list, uid, gid).len() <= u32::MAX,
    ensures
        parse_flist(flist_bytes(list, uid, gid) + tail, PROTOCOL_VERSION) == Ok::<
            (Seq<FileEntry>, Seq<u8>),
            WireError,
        >(
            (
                received_all(
                    None,
                    send_order(list),
                    PROTOCOL_VERSION,
                    4,
                    batch_preserve(uid, gid),
                ),
                tail,
            ),
        ),
{
    let p = batch_preserve(uid, gid);
    let fs = send_order(list);
    let blob = list_bytes(fs, PROTOCOL_VERSION, 4, 0, p, CF_VARINT_FLIST_FLAGS);
    let none = Seq::<u8>::empty();
    batch_list_round_trip(blob, tail);
    file_list_without_tables(fs, PROTOCOL_VERSION, 4, 0, p, CF_VARINT_FLIST_FLAGS, none);
    assert(blob + none =~= blob);
}

/// Records one behind the other, with the end tag behind them.
pub open spec fn records_bytes(rs: Seq<(i32, Seq<u8>)>) -> Seq<u8>
    decreases rs.len(),
{
    if rs.len() == 0 {
        seq![0xffu8]
    } else {
        record_bytes(rs[0].0, rs[0].1) + records_bytes(rs.skip(1))
    }
}

/// The records up to the end tag, and what comes behind it.
pub open spec fn parse_records(buf: Seq<u8>) -> Result<
    (Seq<(i32, Seq<u8>)>, Seq<u8>),
    BatchError,
>
    decreases buf.len(),
{
    match parse_record(buf) {
        Err(e) => Err(e),
        Ok((None, rest)) => Ok((Seq::empty(), rest)),
        Ok((Some(r), rest)) => if rest.len() < buf.len() {
            match parse_records(rest) {
                Err(e) => Err(e),
                Ok((rs, end)) => Ok((seq![r] + rs, end)),
            }
        } else {
            Err(BatchError::Wire(WireError::UnexpectedEof))
        },
    }
}

proof fn lemma_records_travel(rs: Seq<(i32, Seq<u8>)>, tail: Seq<u8>)
    requires
        forall|i: int| 0 <= i < rs.len() ==> (#[trigger] rs[i]).1.len() <= u64::MAX,
    ensures
        parse_records(records_bytes(rs) + tail) == Ok::<
            (Seq<(i32, Seq<u8>)>, Seq<u8>),
            BatchError,
        >((rs, tail)),
    decreases rs.len(),
{
    let buf = records_bytes(rs) + tail;
    if rs.len() == 0 {
        batch_record_round_trip(0, Seq::empty(), tail);
        assert(rs =~= Seq::empty());
    } else {
        let (ndx, content) = rs[0];
        let rest = records_bytes(rs.skip(1)) + tail;
        assert(buf =~= record_bytes(ndx, content) + rest);
        batch_record_round_trip(ndx, content, rest);
        assert forall|i: int| 0 <= i < rs.skip(1).len() implies (#[trigger] rs.skip(1)[i]).1.len()
            <= u64::MAX by {
            assert(rs.skip(1)[i] == rs[i + 1]);
        }
        lemma_records_travel(rs.skip(1), tail);
        assert(seq![(ndx, content)] + rs.skip(1) =~= rs);
    }
}

/// A batch file is read back as it was written: its header, its file list with
/// the fields that the batch keeps, and its records up to the end tag.
pub proof fn batch_round_trip(
    flags: u32,
    seed: i32,
    list: FileList,
    uid: bool,
    gid: bool,
    rs: Seq<(i32, Seq<u8>)>,
    tail: Seq<u8>,
)
    requires
        all_travel(send_order(list), PROTOCOL_VERSION, batch_preserve(uid, gid)),
        flist_bytes(list, uid, gid).len() <= u32::MAX,
        forall|i: int| 0 <= i < rs.len() ==> (#[trigger] rs[i]).1.len() <= u64::MAX,
    ensures
        ({
            let file = header_bytes(flags, seed, PROTOCOL_VERSION) + flist_bytes(list, uid, gid)
                + records_bytes(rs) + tail;
            let p = batch_preserve(uid, gid);
            let kept = received_all(None, send_order(list), PROTOCOL_VERSION, 4, p);
            parse_header(file) matches Ok((f, s, v, r1)) && f == flags && s == seed && (
            parse_flist(r1, v) matches Ok((fs, r2)) && fs == kept && parse_records(r2) == Ok::<
                (Seq<(i32, Seq<u8>)>, Seq<u8>),
                BatchError,
            >((rs, tail)))
        }),
{
    let a = header_bytes(flags, seed, PROTOCOL_VERSION);
    let b = flist_bytes(list, uid, gid);
    let c = records_bytes(rs) + tail;
    assert(a + b + records_bytes(rs) + tail =~= a + (b + c));
    batch_header_round_trip(flags, seed, PROTOCOL_VERSION, b + c);
    batch_entries_round_trip(list, uid, gid, c);
    lemma_records_travel(rs, tail);
}

/// A record is read back as it was written, and the end tag as the end.
pub proof fn batch_record_round_trip(ndx: i32, content: Seq<u8>, tail: Seq<u8>)
    requires
        content.len() <= u64::MAX,
    ensures
        parse_record(record_bytes(ndx, content) + tail) == Ok::<
            (Option<(i32, Seq<u8>)>, Seq<u8>),
            BatchError,
        >((Some((ndx, content)), tail)),
        parse_record(seq![0xffu8] + tail) == Ok::<(Option<(i32, Seq<u8>)>, Seq<u8>), BatchError>(
            (None, tail),
        ),
{
    let a = seq![0x01u8];
    let b = enc_int(ndx);
    let c = enc_u64(content.len() as u64);
    assert(record_bytes(ndx, content) + tail =~= a + (b + (c + (content + tail))));
    lemma_parse_byte(0x01, b + (c + (content + tail)));
    lemma_parse_int(ndx, c + (content + tail));
    lemma_parse_u64(content.len() as u64, content + tail);
    lemma_parse_bytes(content, tail);
    lemma_parse_byte(0xff, tail);
}

proof fn lemma_bits(r: bool, o: bool, g: bool, l: bool, d: bool, h: bool, c: bool, z: bool)
    ensures
        ({
            let f = (on(r, BFLAG_RECURSE) + on(o, BFLAG_OWNER) + on(g, BFLAG_GROUP)
                + on(l, BFLAG_LINKS) + on(d, BFLAG_DEVICES) + on(h, BFLAG_HARD_LINKS)
                + on(c, BFLAG_CHECKSUM) + on(z, BFLAG_COMPRESS)) as u32;
            &&& flag_set(f, BFLAG_RECURSE) == r
            &&& flag_set(f, BFLAG_OWNER) == o
            &&& flag_set(f, BFLAG_GROUP) == g
            &&& flag_set(f, BFLAG_LINKS) == l
            &&& flag_set(f, BFLAG_DEVICES) == d
            &&& flag_set(f, BFLAG_HARD_LINKS) == h
            &&& flag_set(f, BFLAG_CHECKSUM) == c
            &&& flag_set(f, BFLAG_COMPRESS) == z
        }),
{
}

/// The option bits of a transfer, applied to any options, set what the
/// transfer had set, with `-a` taken apart.
pub proof fn option_bits_round_trip(o: Options, other: Options)
    ensures
        ({
            let r = options_from_bits(option_bits(o) as u32, other);
            &&& r.recursive == (o.recursive || o.archive)
            &&& r.owner == (o.owner || o.archive)
            &&& r.group == (o.group || o.archive)
            &&& r.links == (o.links || o.archive)
            &&& r.devices == (o.devices || o.archive)
            &&& r.hard_links == o.hard_links
            &&& r.checksum == o.checksum
            &&& r.compress == o.compress
        }),
{
    lemma_bits(
        o.recursive || o.archive,
        o.owner || o.archive,
        o.group || o.archive,
        o.links || o.archive,
        o.devices || o.archive,
        o.hard_links,
        o.checksum,
        o.compress,
    );
}

} // verus!
