//! Lines of a listing, batch files, the letters that a server reads, the order
//! of the work, and compressed streams byte by byte.

use vstd::prelude::*;

use crate::batch::{batch_magic, header_bytes, option_bits, options_from_bits, record_bytes};
use crate::delta::deflate_token::{data_frame, deflated_frames, run_bytes, sync_trailer, RunModel};
use crate::flags::flag_set;
use crate::io::varint::enc_int;
use crate::listing::{filled, list_row, listed_counted, mode_text, Listed};
use crate::options::Options;
use crate::options_server::{given, holds_letters, word_letters, ServerFlags};
use crate::pipeline::run::{run_next, stages_left, RunStage};
use crate::protocol::types::{char_count, FileEntry, Stats};
use crate::text::{first_index, lemma_index_from};
use crate::util::big_text;

verus! {

// ---------------------------------------------------------------------------
// Listings
// ---------------------------------------------------------------------------

/// A row of a listing has ten characters for the mode, then the size against
/// the right edge of fourteen, or more where it needs them, then the time, then
/// the path, each behind a blank; behind the path of a directory is a slash.
pub proof fn rows_show_mode_size_time_and_path(f: Listed, ts: Seq<char>, rel: Seq<char>)
    ensures
        ({
            let s = list_row(f, ts, rel);
            let size = big_text(f.size as int);
            let w = if size.len() < 14 {
                14int
            } else {
                size.len() as int
            };
            let path = if f.is_dir {
                rel.push('/')
            } else {
                rel
            };
            &&& s.len() == 13 + w + ts.len() + path.len()
            &&& s.take(10) == mode_text(f.mode, f.is_dir, f.is_symlink)
            &&& s[10] == ' ' && s[11 + w] == ' ' && s[12 + w + ts.len()] == ' '
            &&& s.subrange(11 + w - size.len(), 11 + w) == size
            &&& forall|k: int| 11 <= k < 11 + w - size.len() ==> #[trigger] s[k] == ' '
            &&& s.subrange(12 + w, 12 + w + ts.len()) == ts
            &&& s.skip(13 + w + ts.len()) == path
        }),
{
    reveal_strlit(" ");
    reveal_strlit("/");
    let s = list_row(f, ts, rel);
    let size = big_text(f.size as int);
    let field = filled(size, ' ', 14);
    let w = field.len() as int;
    let path = if f.is_dir {
        rel.push('/')
    } else {
        rel
    };
    let mode = mode_text(f.mode, f.is_dir, f.is_symlink);
    assert(mode.len() == 10);
    assert(s.take(10) =~= mode);
    assert(s.subrange(11, 11 + w) =~= field);
    assert(s.subrange(11 + w - size.len(), 11 + w) =~= size);
    assert forall|k: int| 11 <= k < 11 + w - size.len() implies #[trigger] s[k] == ' ' by {
        assert(s[k] == field[k - 11]);
    }
    assert(s.subrange(12 + w, 12 + w + ts.len()) =~= ts);
    assert(s.skip(13 + w + ts.len()) =~= path);
}

/// Each file that is listed counts once, by its kind; only what is neither a
/// directory nor a link adds to the size.
pub proof fn listed_files_are_counted(s: Stats, f: Listed)
    requires
        s.num_dirs < i32::MAX,
        s.num_symlinks < i32::MAX,
        s.num_files < i32::MAX,
        i64::MIN <= s.total_size + f.size <= i64::MAX,
    ensures
        ({
            let t = listed_counted(s, f);
            &&& t.num_dirs + t.num_symlinks + t.num_files == s.num_dirs + s.num_symlinks
                + s.num_files + 1
            &&& f.is_dir ==> t.num_dirs == s.num_dirs + 1
            &&& !f.is_dir && f.is_symlink ==> t.num_symlinks == s.num_symlinks + 1
            &&& !f.is_dir && !f.is_symlink ==> t.num_files == s.num_files + 1 && t.total_size
                == s.total_size + f.size
            &&& f.is_dir || f.is_symlink ==> t.total_size == s.total_size
        }),
{
}

// ---------------------------------------------------------------------------
// Batch files
// ---------------------------------------------------------------------------

/// A batch file starts with its magic word, and then the option bits, the seed
/// and the protocol, four bytes each.
pub proof fn batch_files_start_with_a_word(flags: u32, seed: i32, protocol: u32)
    ensures
        ({
            let b = header_bytes(flags, seed, protocol);
            &&& b.len() == 20
            &&& b.take(8) == seq![
                'R' as u8,
                'S' as u8,
                'Y' as u8,
                'N' as u8,
                'B' as u8,
                'A' as u8,
                'T' as u8,
                '1' as u8,
            ]
            &&& b[8] + 0x100 * b[9] + 0x1_0000 * b[10] + 0x100_0000 * b[11] == flags
            &&& b.subrange(12, 16) == enc_int(seed)
            &&& b[16] + 0x100 * b[17] + 0x1_0000 * b[18] + 0x100_0000 * b[19] == protocol
        }),
{
    lemma_number(flags);
    lemma_number(protocol);
    let b = header_bytes(flags, seed, protocol);
    crate::laws::wire::integers_go_lowest_byte_first(seed);
    assert(b.take(8) =~= batch_magic());
    assert(b.take(8) =~= seq![
        'R' as u8,
        'S' as u8,
        'Y' as u8,
        'N' as u8,
        'B' as u8,
        'A' as u8,
        'T' as u8,
        '1' as u8,
    ]);
    assert(b.subrange(8, 12) =~= crate::batch::enc_u32(flags));
    assert(b.subrange(12, 16) =~= enc_int(seed));
    assert(b.subrange(16, 20) =~= crate::batch::enc_u32(protocol));
    assert(b[8] == b.subrange(8, 12)[0] && b[9] == b.subrange(8, 12)[1] && b[10] == b.subrange(
        8,
        12,
    )[2] && b[11] == b.subrange(8, 12)[3]);
    assert(b[16] == b.subrange(16, 20)[0] && b[17] == b.subrange(16, 20)[1] && b[18]
        == b.subrange(16, 20)[2] && b[19] == b.subrange(16, 20)[3]);
}

proof fn lemma_number(x: u32)
    ensures
        ({
            let b = crate::batch::enc_u32(x);
            b.len() == 4 && b[0] + 0x100 * b[1] + 0x1_0000 * b[2] + 0x100_0000 * b[3] == x
        }),
{
    let y = crate::io::bytes::signed32(x as nat);
    assert(crate::io::bytes::bits32(y) == x);
    crate::laws::wire::integers_go_lowest_byte_first(y);
    assert(crate::batch::enc_u32(x) == enc_int(y));
}

/// A record starts with the byte one, the index and the length of eight bytes,
/// and then holds the file.
pub proof fn records_hold_the_file(ndx: i32, content: Seq<u8>)
    requires
        content.len() <= u64::MAX,
    ensures
        ({
            let b = record_bytes(ndx, content);
            &&& b.len() == 13 + content.len()
            &&& b[0] == 1
            &&& b.subrange(1, 5) == enc_int(ndx)
            &&& b.skip(13) == content
        }),
{
    let b = record_bytes(ndx, content);
    crate::laws::wire::integers_go_lowest_byte_first(ndx);
    crate::io::bytes::lemma_le_bytes_len(content.len() as u64 as nat, 8);
    assert(b.subrange(1, 5) =~= enc_int(ndx));
    assert(b.skip(13) =~= content);
}

proof fn lemma_eight_bits(r: bool, o: bool, g: bool, l: bool, d: bool, h: bool, c: bool, z: bool)
    ensures
        ({
            let x = (crate::flags::on(r, 1) + crate::flags::on(o, 2) + crate::flags::on(g, 4)
                + crate::flags::on(l, 8) + crate::flags::on(d, 0x10) + crate::flags::on(h, 0x20)
                + crate::flags::on(c, 0x40) + crate::flags::on(z, 0x100)) as u32;
            &&& flag_set(x, 1) == r
            &&& flag_set(x, 2) == o
            &&& flag_set(x, 4) == g
            &&& flag_set(x, 8) == l
            &&& flag_set(x, 0x10) == d
            &&& flag_set(x, 0x20) == h
            &&& flag_set(x, 0x40) == c
            &&& flag_set(x, 0x100) == z
        }),
{
}

/// The option bits of a batch file say of each option whether it holds, each
/// bit of one option, and reading them sets those options and no others.
pub proof fn option_bits_say_what_holds(o: Options, flags: u32)
    ensures
        ({
            let x = option_bits(o) as u32;
            &&& flag_set(x, 1) == (o.recursive || o.archive)
            &&& flag_set(x, 2) == (o.owner || o.archive)
            &&& flag_set(x, 4) == (o.group || o.archive)
            &&& flag_set(x, 8) == (o.links || o.archive)
            &&& flag_set(x, 0x10) == (o.devices || o.archive)
            &&& flag_set(x, 0x20) == o.hard_links
            &&& flag_set(x, 0x40) == o.checksum
            &&& flag_set(x, 0x100) == o.compress
        }),
        ({
            let p = options_from_bits(flags, o);
            &&& p.recursive == flag_set(flags, 1) && p.owner == flag_set(flags, 2) && p.group
                == flag_set(flags, 4) && p.links == flag_set(flags, 8) && p.devices == flag_set(
                flags,
                0x10,
            ) && p.hard_links == flag_set(flags, 0x20) && p.checksum == flag_set(flags, 0x40)
                && p.compress == flag_set(flags, 0x100)
            &&& p.args == o.args && p.delete == o.delete && p.dry_run == o.dry_run && p.times
                == o.times && p.perms == o.perms
        }),
{
    lemma_eight_bits(
        o.recursive || o.archive,
        o.owner || o.archive,
        o.group || o.archive,
        o.links || o.archive,
        o.devices || o.archive,
        o.hard_links,
        o.checksum,
        o.compress,
    );
}

// ---------------------------------------------------------------------------
// The letters that a server reads
// ---------------------------------------------------------------------------

proof fn lemma_counted(s: Seq<char>, c: char)
    ensures
        (char_count(s, c) >= 1) == s.contains(c),
    decreases s.len(),
{
    if s.len() > 0 {
        let t = s.drop_last();
        lemma_counted(t, c);
        assert(s.contains(c) == (t.contains(c) || s.last() == c)) by {
            if t.contains(c) {
                let i = choose|i: int| 0 <= i < t.len() && t[i] == c;
                assert(s[i] == c);
            }
            if s.contains(c) && s.last() != c {
                let i = choose|i: int| 0 <= i < s.len() && s[i] == c;
                assert(t[i] == c);
            }
        }
    }
}

proof fn lemma_given(letters: Seq<char>, c: char)
    ensures
        given(seq![letters], c) == letters.contains(c),
{
    lemma_counted(letters, c);
    let words = seq![letters];
    assert(words[0] == letters);
}

/// A server reads from a word what its letters stand for: each option is set
/// exactly where its letter is there, or the one that stands for several.
pub proof fn letters_stand_for_options(f: ServerFlags, letters: Seq<char>)
    requires
        holds_letters(f, seq![letters]),
    ensures
        f.quiet == letters.contains('q'),
        f.archive == letters.contains('a'),
        f.recursive == (letters.contains('r') || letters.contains('a')),
        f.links == (letters.contains('l') || letters.contains('a')),
        f.perms == (letters.contains('p') || letters.contains('a')),
        f.times == (letters.contains('t') || letters.contains('a')),
        f.group == (letters.contains('g') || letters.contains('a')),
        f.owner == (letters.contains('o') || letters.contains('a')),
        f.devices == (letters.contains('D') || letters.contains('a')),
        f.specials == (letters.contains('D') || letters.contains('a')),
        f.checksum == letters.contains('c'),
        f.update == letters.contains('u'),
        f.hard_links == letters.contains('H'),
        f.copy_links == letters.contains('L'),
        f.keep_dirlinks == letters.contains('k'),
        f.whole_file == letters.contains('W'),
        f.dry_run == letters.contains('n'),
        f.relative == letters.contains('R'),
        f.itemize == letters.contains('i'),
        f.cvs_exclude == letters.contains('C'),
        f.ignore_times == letters.contains('I'),
        f.one_file_system == letters.contains('x'),
        f.protect_args == letters.contains('s'),
        f.compress == letters.contains('z'),
        f.fuzzy == letters.contains('f'),
{
    lemma_given(letters, 'q');
    lemma_given(letters, 'a');
    lemma_given(letters, 'r');
    lemma_given(letters, 'l');
    lemma_given(letters, 'p');
    lemma_given(letters, 't');
    lemma_given(letters, 'g');
    lemma_given(letters, 'o');
    lemma_given(letters, 'D');
    lemma_given(letters, 'c');
    lemma_given(letters, 'u');
    lemma_given(letters, 'H');
    lemma_given(letters, 'L');
    lemma_given(letters, 'k');
    lemma_given(letters, 'W');
    lemma_given(letters, 'n');
    lemma_given(letters, 'R');
    lemma_given(letters, 'i');
    lemma_given(letters, 'C');
    lemma_given(letters, 'I');
    lemma_given(letters, 'x');
    lemma_given(letters, 's');
    lemma_given(letters, 'z');
    lemma_given(letters, 'f');
}

/// The letters of a word are those behind its dash, up to an `e`, behind which
/// stands something else.
pub proof fn letters_end_at_the_first_e(letters: Seq<char>, tail: Seq<char>)
    requires
        !letters.contains('e'),
    ensures
        word_letters(seq!['-'] + letters) == letters,
        word_letters(seq!['-'] + letters + seq!['e'] + tail) == letters,
{
    let a = seq!['-'] + letters;
    assert(a.skip(1) =~= letters);
    lemma_index_from(letters, 'e', 0);
    match first_index(letters, 'e') {
        Some(i) => {
            assert(letters.contains(letters[i]));
        },
        None => {},
    }
    let b = seq!['-'] + letters + seq!['e'] + tail;
    let rest = b.skip(1);
    assert(rest =~= letters + seq!['e'] + tail);
    lemma_index_from(rest, 'e', 0);
    assert(rest[letters.len() as int] == 'e');
    match first_index(rest, 'e') {
        Some(i) => {
            if i < letters.len() {
                assert(letters.contains(letters[i]));
            }
            assert(rest.take(i) =~= letters);
        },
        None => {},
    }
}

// ---------------------------------------------------------------------------
// The order of the work
// ---------------------------------------------------------------------------

/// Directories are made before any file is looked at, files are looked at
/// before any link is made, and all is done before the sides part.
pub proof fn directories_come_first(s: RunStage, fs: Seq<FileEntry>, protocol: u32)
    ensures
        ({
            let (a, next) = run_next(s, fs, protocol);
            &&& a is MakeDir ==> s is Dirs && next is Dirs
            &&& a is Check ==> (s is Dirs || s is Files) && next is Files
            &&& a is MakeLink ==> (s is Dirs || s is Files || s is Links) && next is Links
            &&& a is Part ==> !(s is Over) && next is Parting
            &&& a is Finish ==> next is Over
            &&& stages_left(next) <= stages_left(s)
        }),
{
    reveal_with_fuel(run_next, 5);
}

// ---------------------------------------------------------------------------
// Compressed streams
// ---------------------------------------------------------------------------

/// Compressed bytes go in frames of two bytes in front: the upper two bits mark
/// data, and the other fourteen say how much; no frame is longer than 16383
/// bytes.
pub proof fn compressed_data_goes_in_frames(b: Seq<u8>)
    requires
        0 < b.len() <= 16383,
    ensures
        deflated_frames(b) == data_frame(b),
        ({
            let f = data_frame(b);
            &&& f.len() == b.len() + 2
            &&& 0x40 <= f[0] < 0x80
            &&& (f[0] - 0x40) * 256 + f[1] == b.len()
            &&& f.skip(2) == b
        }),
        sync_trailer() == seq![0u8, 0u8, 0xffu8, 0xffu8],
{
    let f = data_frame(b);
    assert(f.skip(2) =~= b);
}

/// A run of blocks goes as how far it starts behind the run before, in one
/// byte, where that is near, and how much longer than one block it is, in two.
pub proof fn near_runs_go_in_one_byte(start: int, last: int, prev: int)
    requires
        0 <= start - prev <= 63,
        0 <= last - start <= 65535,
    ensures
        last == start ==> run_bytes(start, last, prev) == seq![(0x80 + (start - prev)) as u8],
        last > start ==> run_bytes(start, last, prev) == seq![
            (0xc0 + (start - prev)) as u8,
            ((last - start) % 256) as u8,
            ((last - start) / 256) as u8,
        ],
{
    if last == start {
        assert(run_bytes(start, last, prev) =~= seq![(0x80 + (start - prev)) as u8]);
    } else {
        crate::laws::wire::short_integers_go_lowest_byte_first((last - start) as u16);
        assert(run_bytes(start, last, prev) =~= seq![
            (0xc0 + (start - prev)) as u8,
            ((last - start) % 256) as u8,
            ((last - start) / 256) as u8,
        ]);
    }
}

/// A run that is far from the one before goes behind a mark, with where it
/// starts as an integer.
pub proof fn far_runs_say_where_they_start(start: i32, last: i32, prev: i32)
    requires
        start - prev < 0 || start - prev > 63,
        0 <= last - start <= 65535,
    ensures
        ({
            let b = run_bytes(start as int, last as int, prev as int);
            &&& b[0] == if last == start {
                0x20u8
            } else {
                0x21u8
            }
            &&& b.subrange(1, 5) == enc_int(start)
            &&& b.len() == if last == start {
                5int
            } else {
                7int
            }
        }),
{
    let b = run_bytes(start as int, last as int, prev as int);
    crate::laws::wire::integers_go_lowest_byte_first(start);
    crate::laws::wire::short_integers_go_lowest_byte_first((last - start) as u16);
    assert(b.subrange(1, 5) =~= enc_int(start));
}

/// Blocks that follow each other make one run; any other block ends it.
pub proof fn blocks_in_a_row_make_one_run(r: RunModel, token: i32)
    requires
        r.open,
    ensures
        token == r.last + 1 && token < r.start + 65536 ==> r.after(token).start == r.start && r.after(
            token,
        ).last == token && r.writes(token) == Seq::<u8>::empty(),
        token != r.last + 1 ==> r.after(token).start == token && r.after(token).last == token
            && r.after(token).prev == r.last && r.writes(token) == run_bytes(
            r.start as int,
            r.last as int,
            r.prev as int,
        ),
{
}

} // verus!
