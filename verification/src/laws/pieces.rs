//! What files are cut into, how the pieces are summed, and how a file is asked
//! for and put together again.

use vstd::prelude::*;

use crate::checksum::rolling::{byte_sum, packed, prefix_sum, rolling_sum, signed_byte};
use crate::checksum::strong::{
    protocol_checksum, seed_bytes, strong_sum, ChecksumType,
};
use crate::delta::match_blocks::block_len as len_of_block;
use crate::delta::token::TokenModel;
use crate::flags::flag_set;
use crate::io::bytes::le_bytes;
use crate::pipeline::generator::{
    basis_block, can_be_summed, head_has_blocks, head_of, is_asked_for, no_head, rebuilt, sums_of,
    FileStat,
};
use crate::pipeline::receiver::{
    arrival_counted, goodbye_steps, phase_steps, report_of, GoodbyeStep,
};
use crate::pipeline::sender::{can_count, file_at, max_phase};
use crate::pipeline::sum_len_of;
use crate::protocol::constants::CsumType;
use crate::protocol::types::{FileEntry, FileList, FileType, Stats, SumHead};
use crate::util::{block_count, block_len, change_text, last_block};

verus! {

// ---------------------------------------------------------------------------
// Blocks
// ---------------------------------------------------------------------------

/// Small files are cut into blocks of 700 bytes and large ones into ten
/// thousand blocks, or more where a block would be longer than 131072 bytes.
pub proof fn blocks_grow_with_the_file(size: int)
    ensures
        700 <= block_len(size) <= 131072,
        size < 7_000_000 ==> block_len(size) == 700,
        7_000_000 <= size && block_len(size) < 131072 ==> 10_000 * block_len(size) <= size < 10_000
            * (block_len(size) + 1),
        size >= 131072 * 10_000 ==> block_len(size) == 131072,
{
}

/// A longer file has no shorter blocks.
pub proof fn longer_files_have_longer_blocks(a: int, b: int)
    requires
        a <= b,
    ensures
        block_len(a) <= block_len(b),
{
}

/// As many blocks are counted as are needed: they reach the end of the file,
/// and one less would not; the last one holds what the others leave.
pub proof fn blocks_are_as_many_as_needed(size: int, blength: int)
    requires
        size > 0,
        blength > 0,
    ensures
        ({
            let n = block_count(size, blength);
            let r = last_block(size, blength);
            &&& (n - 1) * blength < size <= n * blength
            &&& 0 <= r < blength
            &&& r != 0 ==> size == (n - 1) * blength + r
            &&& r == 0 ==> size == n * blength
        }),
        block_count(0, blength) == 0,
{
    crate::util::blocks_cover_file(size, blength);
    let n = block_count(size, blength);
    let r = last_block(size, blength);
    assert(0 <= r < blength) by (nonlinear_arith)
        requires
            r == size % blength,
            blength > 0,
    ;
    assert(n * blength == (n - 1) * blength + blength) by (nonlinear_arith);
}

/// The layout of a file lays its blocks end to end: they reach the end of the
/// file, and the last one ends there.
pub proof fn layout_reaches_the_end(len: int, sum_len: i32)
    requires
        len > 0,
        can_be_summed(len),
    ensures
        ({
            let h = head_of(len, sum_len);
            &&& h.s2length == sum_len
            &&& h.blength >= 700
            &&& h.count > 0
            &&& (h.count - 1) * h.blength < len <= h.count * h.blength
            &&& (h.count - 1) * h.blength + len_of_block(h, h.count - 1) == len
        }),
{
    let b = block_len(len);
    blocks_grow_with_the_file(len);
    blocks_are_as_many_as_needed(len, b);
    let n = block_count(len, b);
    assert(n > 0) by (nonlinear_arith)
        requires
            n * b >= len,
            len > 0,
            b > 0,
    ;
    assert(n * b == (n - 1) * b + b) by (nonlinear_arith);
}

/// The checksums of a file are those of its blocks, one for each, in order:
/// each is of the bytes that the block holds.
pub proof fn sums_are_of_the_blocks(data: Seq<u8>, ct: CsumType, seed: u32, i: int)
    requires
        data.len() > 0,
        can_be_summed(data.len() as int),
        0 <= i < head_of(data.len() as int, sum_len_of(ct)).count,
    ensures
        ({
            let h = head_of(data.len() as int, sum_len_of(ct));
            let ss = sums_of(data, h, ct, seed, false);
            let from = i * h.blength;
            let to = if i == h.count - 1 {
                data.len() as int
            } else {
                from + h.blength
            };
            &&& ss.len() == h.count
            &&& 0 <= from < to <= data.len()
            &&& ss[i].sum1 == rolling_sum(data.subrange(from, to))
            &&& ss[i].len == to - from
            &&& ss[i].sum2.len() <= sum_len_of(ct)
        }),
{
    let len = data.len() as int;
    let h = head_of(len, sum_len_of(ct));
    layout_reaches_the_end(len, sum_len_of(ct));
    let n = h.count as int;
    let b = h.blength as int;
    assert(0 <= i * b && i * b <= (n - 1) * b) by (nonlinear_arith)
        requires
            0 <= i <= n - 1,
            b > 0,
    ;
    if i < n - 1 {
        assert(i * b + b <= (n - 1) * b) by (nonlinear_arith)
            requires
                i <= n - 2,
                b > 0,
        ;
    }
}

// ---------------------------------------------------------------------------
// Checksums
// ---------------------------------------------------------------------------

/// The rolling checksum of nothing is zero.  One byte more adds itself, as a
/// signed number, to the lower half; the upper half adds up what the lower half
/// was after each byte.
pub proof fn rolling_sum_grows(data: Seq<u8>, b: u8)
    ensures
        rolling_sum(Seq::empty()) == 0,
        ({
            let before = rolling_sum(data);
            let after = rolling_sum(data.push(b));
            let added: int = if b < 128 {
                b as int
            } else {
                b + 65536 - 256
            };
            &&& after % 65536 == (before % 65536 + added) % 65536
            &&& after / 65536 == (before / 65536 + after % 65536) % 65536
        }),
{
    let all = data.push(b);
    assert(all.drop_last() =~= data);
    let x = byte_sum(data);
    let y = prefix_sum(data);
    let s = signed_byte(b);
    lemma_halves(x, y);
    lemma_halves(x + s, y + (x + s));
    lemma_halves(0, 0);
    let added: int = if b < 128 {
        b as int
    } else {
        b + 65536 - 256
    };
    lemma_shifted(x, s, added);
    lemma_shifted(y, x + s, (x + s) % 65536);
    assert(rolling_sum(data) == packed(x, y));
    assert(rolling_sum(all) == packed(x + s, y + (x + s)));
}

proof fn lemma_shifted(x: int, s: int, t: int)
    requires
        s % 65536 == t % 65536,
    ensures
        (x + s) % 65536 == (x % 65536 + t) % 65536,
{
}

proof fn lemma_halves(x: int, y: int)
    ensures
        packed(x, y) % 65536 == x % 65536,
        packed(x, y) / 65536 == y % 65536,
{
}

/// A seed is summed with the data: behind it, its four bytes lowest first, or,
/// where MD5 is asked to, in front of it.
pub proof fn seed_is_summed_with_the_data(data: Seq<u8>, ctype: ChecksumType, seed: u32)
    requires
        seed != 0,
    ensures
        ({
            let four = seq![
                (seed % 256) as u8,
                (seed / 256 % 256) as u8,
                (seed / 65536 % 256) as u8,
                (seed / 16777216) as u8,
            ];
            &&& strong_sum(data, ctype, seed, false) == strong_sum(data + four, ctype, 0, false)
            &&& strong_sum(data, ChecksumType::Md5, seed, true) == strong_sum(
                four + data,
                ChecksumType::Md5,
                0,
                false,
            )
        }),
{
    let four = seq![
        (seed % 256) as u8,
        (seed / 256 % 256) as u8,
        (seed / 65536 % 256) as u8,
        (seed / 16777216) as u8,
    ];
    reveal_with_fuel(le_bytes, 5);
    let n = seed as nat;
    assert(n / 256 / 256 == n / 65536 && n / 256 / 256 / 256 == n / 16777216);
    assert(seed_bytes(seed) =~= four);
    let none = Seq::<u8>::empty();
    assert(data + four + none =~= data + four);
    assert(four + data + none =~= four + data);
    assert(seed_bytes(0) == none);
}

/// A newer protocol never has an older checksum: MD5 from 30 on, and three
/// kinds of MD4 below it.
pub proof fn newer_protocols_have_newer_checksums(version: u32)
    ensures
        (protocol_checksum(version) == ChecksumType::Md5) == (version >= 30),
        (protocol_checksum(version) == ChecksumType::Md4Old) == (27 <= version < 30),
        (protocol_checksum(version) == ChecksumType::Md4Busted) == (21 <= version < 27),
        (protocol_checksum(version) == ChecksumType::Md4Archaic) == (version < 21),
{
}

// ---------------------------------------------------------------------------
// Requests
// ---------------------------------------------------------------------------

/// A regular file is asked for exactly where what is there of it is not what
/// the list says, by size or by time; where all are asked for, each one is; and
/// nothing but regular files ever is.
pub proof fn files_that_differ_are_asked_for(f: FileEntry, s: FileStat, found: Option<FileStat>)
    ensures
        f.file_type() == FileType::Regular && f.size >= 0 ==> is_asked_for(f, Some(s), false) == !(
        s.len == f.size && s.mtime == f.modtime),
        f.file_type() == FileType::Regular ==> is_asked_for(f, None, false),
        f.file_type() == FileType::Regular ==> is_asked_for(f, found, true),
        f.file_type() != FileType::Regular ==> !is_asked_for(f, found, false) && !is_asked_for(
            f,
            found,
            true,
        ),
{
}

/// A file that is not there has no blocks, and one that is there has.
pub proof fn what_is_there_has_blocks(len: int, sum_len: i32)
    requires
        0 <= len,
        can_be_summed(len),
    ensures
        !head_has_blocks(no_head(sum_len)),
        head_has_blocks(head_of(len, sum_len)) == (len > 0),
        no_head(sum_len).s2length == sum_len,
{
    if len > 0 {
        layout_reaches_the_end(len, sum_len);
    }
}

/// A file of the list is found at its index, and no other index finds one.
pub proof fn files_are_found_by_index(l: FileList, i: int, ndx: i32)
    ensures
        0 <= i < l.files@.len() && ndx == l.ndx_start + i ==> file_at(l, ndx) == Some(l.files@[i]@),
        ndx < l.ndx_start || ndx - l.ndx_start >= l.files@.len() ==> file_at(l, ndx) is None,
{
}

// ---------------------------------------------------------------------------
// Putting together
// ---------------------------------------------------------------------------

/// Literal bytes are added as they are, and a block of the older copy as the
/// bytes it holds; nothing is added otherwise.
pub proof fn tokens_add_their_bytes(
    ts: Seq<TokenModel>,
    basis: Seq<u8>,
    h: SumHead,
    bytes: Seq<u8>,
    i: i32,
)
    ensures
        rebuilt(Seq::empty(), basis, h) == Seq::<u8>::empty(),
        rebuilt(ts.push(TokenModel::Literal(bytes)), basis, h) == rebuilt(ts, basis, h) + bytes,
        0 <= i < h.count - 1 && h.blength > 0 && (i + 1) * h.blength <= basis.len() ==> rebuilt(
            ts.push(TokenModel::BlockMatch(i)),
            basis,
            h,
        ) == rebuilt(ts, basis, h) + basis.subrange(i * h.blength, (i + 1) * h.blength),
        0 <= i && i == h.count - 1 && h.blength > 0 && 0 < h.remainder && i * h.blength
            + h.remainder == basis.len() ==> rebuilt(ts.push(TokenModel::BlockMatch(i)), basis, h)
            == rebuilt(ts, basis, h) + basis.skip(i * h.blength),
{
    assert(ts.push(TokenModel::Literal(bytes)).drop_last() =~= ts);
    assert(ts.push(TokenModel::BlockMatch(i)).drop_last() =~= ts);
    let n = i as int;
    let b = h.blength as int;
    assert((n + 1) * b == n * b + b) by (nonlinear_arith);
    if 0 <= i && b > 0 {
        assert(0 <= n * b) by (nonlinear_arith)
            requires
                0 <= n,
                b > 0,
        ;
    }
    if 0 <= i && i == h.count - 1 && h.blength > 0 && 0 < h.remainder && i * h.blength
        + h.remainder == basis.len() {
        assert(basis_block(basis, h, n) =~= basis.skip(n * b));
    }
    if 0 <= i < h.count - 1 && h.blength > 0 && (i + 1) * h.blength <= basis.len() {
        assert(basis_block(basis, h, n) =~= basis.subrange(n * b, (n + 1) * b));
    }
}

/// A file that came in counts once, with all its bytes, and as created where it
/// is a regular file.
pub proof fn arrivals_are_counted(s: Stats, len: int, regular: bool)
    requires
        can_count(s, len),
        0 <= len,
    ensures
        ({
            let t = arrival_counted(s, len, regular);
            let one: int = if regular {
                1
            } else {
                0
            };
            &&& t.total_written == s.total_written + len
            &&& t.xferred_files == s.xferred_files + one
            &&& t.created_files == s.created_files + one
            &&& t.num_files == s.num_files && t.total_read == s.total_read && t.total_size
                == s.total_size && t.deleted_files == s.deleted_files
        }),
{
}

/// What is said of a file that came in ends with its path.  A file that was not
/// there before is told as new, and one that was with its size and its time,
/// and nothing else, as changed.
pub proof fn arrivals_are_told(f: FileEntry)
    ensures
        ({
            let s = report_of(f, true);
            let kind = f.mode / 0x1000 % 16;
            &&& s.len() == 12 + f.path().len()
            &&& s.skip(12) == f.path()
            &&& s[0] == '>' && s[2] == '.' && s[4] == 't' && s[5] == '.' && s[11] == ' '
            &&& kind != 10 ==> s[3] == 's'
        }),
        ({
            let s = report_of(f, false);
            &&& s.len() == 12 + f.path().len()
            &&& s.skip(12) == f.path()
            &&& s[0] == '>'
            &&& forall|k: int| 2 <= k < 11 ==> #[trigger] s[k] == '+'
        }),
{
    reveal_strlit(" ");
    let old = change_text(0x800c, f.mode, false);
    let new = change_text(0xa000, f.mode, false);
    assert(old.len() == 11 && new.len() == 11);
    assert(report_of(f, true) == old + " "@ + f.path());
    assert(report_of(f, false) == new + " "@ + f.path());
    assert(report_of(f, true).skip(12) =~= f.path());
    assert(report_of(f, false).skip(12) =~= f.path());
    assert(!flag_set(0x800c, 0x2_0000) && !flag_set(0x800c, 0x2000) && !flag_set(0x800c, 0x1_0000)
        && !flag_set(0x800c, 0x4000) && flag_set(0x800c, 0x8000) && flag_set(0x800c, 4)
        && flag_set(0x800c, 8) && !flag_set(0x800c, 2) && !flag_set(0x800c, 0x10));
    assert(!flag_set(0xa000, 0x2_0000) && flag_set(0xa000, 0x2000) && !flag_set(0xa000, 0x4000)
        && flag_set(0xa000, 0x8000));
    crate::laws::told::changed_attributes_are_told(0x800c, f.mode, false);
    crate::laws::told::first_letters_tell_way_and_kind(0x800c, f.mode, false);
    crate::laws::told::first_letters_tell_way_and_kind(0xa000, f.mode, false);
    crate::laws::told::new_and_deleted_files_are_told(0xa000, f.mode, false);
}

/// The receiving side closes each phase and waits until the sending side has
/// closed it too; then it says twice that it is done, and from protocol 31 on
/// once more when it has heard from the other side.
pub proof fn receiver_parts_by_phases(protocol: u32)
    ensures
        ({
            let s = goodbye_steps(protocol);
            let n: int = if protocol >= 29 {
                2
            } else {
                1
            };
            &&& s.len() == if protocol >= 31 {
                2 * n + 5
            } else {
                2 * n + 3
            }
            &&& forall|k: int|
                0 <= k < n ==> #[trigger] s[2 * k] == GoodbyeStep::Send && s[2 * k + 1]
                    == GoodbyeStep::Read
            &&& s[2 * n] == GoodbyeStep::Send && s[2 * n + 1] == GoodbyeStep::Send
            &&& protocol >= 31 ==> s[2 * n + 2] == GoodbyeStep::Read && s[2 * n + 3]
                == GoodbyeStep::Send
            &&& s.last() == GoodbyeStep::TryRead
            &&& max_phase(protocol) == n
        }),
{
    reveal_with_fuel(phase_steps, 3);
    assert(phase_steps(1) =~= seq![GoodbyeStep::Send, GoodbyeStep::Read]);
    assert(phase_steps(2) =~= seq![
        GoodbyeStep::Send,
        GoodbyeStep::Read,
        GoodbyeStep::Send,
        GoodbyeStep::Read,
    ]);
}

} // verus!
