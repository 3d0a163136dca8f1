//! The forms that single things take: lines of the daemon's list, the words of
//! a command, and what an entry of a file list carries at its end.

use vstd::prelude::*;
use vstd::utf8::encode_utf8;

use crate::daemon::{listing, module_lines, motd_lines, Config, ModuleModel};
use crate::flist::send::{link_text, short_time, special_bytes, time_bytes, Preserve};
use crate::io::bytes::signed32;
use crate::io::varint::{enc_int, enc_varint, enc_varlong};
use crate::laws::lists::{is_word, spaced};
use crate::protocol::types::{FileEntry, FileType};
use crate::text::is_white;
use crate::transport::ssh::{
    nothing_split, split_all, split_step, with_char, words_of, Split,
};
use crate::uidlist::name_bytes;

verus! {

// ---------------------------------------------------------------------------
// The daemon's list
// ---------------------------------------------------------------------------

/// A line of the list has the name of the module on fifteen places, or more
/// where it is longer, then a tab, then the comment.
pub proof fn names_line_up(m: ModuleModel)
    requires
        m.list,
    ensures
        ({
            let s = module_lines(seq![m]);
            let w = if m.name.len() < 15 {
                15int
            } else {
                m.name.len() as int
            };
            &&& s.len() == w + m.comment.len() + 2
            &&& s.take(m.name.len() as int) == m.name
            &&& forall|k: int| m.name.len() <= k < w ==> #[trigger] s[k] == ' '
            &&& s[w] == '\t'
            &&& s.subrange(w + 1, w + 1 + m.comment.len()) == m.comment
            &&& s.last() == '\n'
        }),
{
    reveal_strlit("\t");
    reveal_strlit("\n");
    reveal_with_fuel(module_lines, 2);
    let ms = seq![m];
    assert(ms.drop_last() =~= Seq::<ModuleModel>::empty());
    assert(ms.last() == m);
    let s = module_lines(ms);
    let w = if m.name.len() < 15 {
        15int
    } else {
        m.name.len() as int
    };
    assert(s.take(m.name.len() as int) =~= m.name);
    assert(s.subrange(w + 1, w + 1 + m.comment.len()) =~= m.comment);
}

/// The list of modules starts with the message of the day, which ends its line,
/// and ends with the word that ends the conversation.
pub proof fn message_of_the_day_comes_first(config: Config, motd: Seq<char>)
    ensures
        ({
            let s = listing(config, Some(motd));
            let plain = listing(config, None);
            &&& s.len() > motd.len()
            &&& s.take(motd.len() as int) == motd
            &&& s.skip(s.len() - plain.len()) == plain
            &&& motd.len() > 0 && motd.last() == '\n' ==> s == motd + plain
            &&& motd.len() == 0 || motd.last() != '\n' ==> s == motd.push('\n') + plain
            &&& plain.skip(plain.len() - 14) == "@RSYNCD: EXIT\n"@
        }),
{
    reveal_strlit("\n");
    reveal_strlit("@RSYNCD: EXIT\n");
    let s = listing(config, Some(motd));
    let plain = listing(config, None);
    let front = motd_lines(Some(motd));
    assert(s =~= front + plain);
    assert(motd + "\n"@ =~= motd.push('\n'));
    assert(s.take(motd.len() as int) =~= motd);
    assert(s.skip(s.len() - plain.len()) =~= plain);
    assert(plain.skip(plain.len() - 14) =~= "@RSYNCD: EXIT\n"@);
}

// ---------------------------------------------------------------------------
// Words of a command
// ---------------------------------------------------------------------------

/// Whether a text is a word without anything that means more than itself.
pub open spec fn is_bare(s: Seq<char>) -> bool {
    is_word(s) && forall|i: int|
        0 <= i < s.len() ==> #[trigger] s[i] != '\'' && s[i] != '"' && s[i] != '\\'
}

proof fn lemma_bare(st: Split, w: Seq<char>, rest: Seq<char>)
    requires
        forall|i: int|
            0 <= i < w.len() ==> !is_white(#[trigger] w[i]) && w[i] != '\'' && w[i] != '"' && w[i]
                != '\\',
        !st.in_single,
        !st.in_double,
    ensures
        split_all(st, w + rest) == split_all(
            Split { word: st.word + w, open: st.open || w.len() > 0, ..st },
            rest,
        ),
    decreases w.len(),
{
    let s = w + rest;
    if w.len() == 0 {
        assert(s =~= rest);
        assert(st.word + w =~= st.word);
    } else {
        let c = w[0];
        assert(s[0] == c);
        assert(!is_white(w[0]) && w[0] != '\\');
        let next = with_char(st, c);
        assert(split_step(st, c) == next);
        assert(s.skip(1) =~= w.skip(1) + rest);
        assert forall|i: int| 0 <= i < w.skip(1).len() implies !is_white(#[trigger] w.skip(1)[i])
            && w.skip(1)[i] != '\'' && w.skip(1)[i] != '"' && w.skip(1)[i] != '\\' by {
            assert(!is_white(w[i + 1]) && w[i + 1] != '\'');
        }
        lemma_bare(next, w.skip(1), rest);
        assert(next.word + w.skip(1) =~= st.word + w);
    }
}

proof fn lemma_bare_words(st: Split, ws: Seq<Seq<char>>)
    requires
        !st.in_single,
        !st.in_double,
        !st.open,
        st.word == Seq::<char>::empty(),
        ws.len() > 0,
        forall|i: int| 0 <= i < ws.len() ==> is_bare(#[trigger] ws[i]),
    ensures
        ({
            let after = split_all(st, spaced(ws));
            after.open && after.words.push(after.word) == st.words + ws
        }),
    decreases ws.len(),
{
    let w = ws[0];
    assert(is_bare(w));
    let none = Seq::<char>::empty();
    assert forall|i: int| 0 <= i < w.len() implies !is_white(#[trigger] w[i]) && w[i] != '\''
        && w[i] != '"' && w[i] != '\\' by {}
    if ws.len() == 1 {
        assert(w + none =~= w);
        lemma_bare(st, w, none);
        assert(none + w =~= w);
        assert(st.words.push(w) =~= st.words + ws);
    } else {
        let more = ws.skip(1);
        let rest = seq![' '] + spaced(more);
        assert(spaced(ws) =~= w + rest);
        lemma_bare(st, w, rest);
        assert(none + w =~= w);
        let mid = Split { word: w, open: true, ..st };
        assert(rest[0] == ' ');
        assert(rest.skip(1) =~= spaced(more));
        let next = split_step(mid, ' ');
        assert(split_all(mid, rest) == split_all(next, spaced(more)));
        assert forall|i: int| 0 <= i < more.len() implies is_bare(#[trigger] more[i]) by {
            assert(is_bare(ws[i + 1]));
        }
        lemma_bare_words(next, more);
        assert(st.words.push(w) + more =~= st.words + ws);
    }
}

/// Bare words with a blank between them are the words of a command.
pub proof fn bare_words_are_words(ws: Seq<Seq<char>>)
    requires
        forall|i: int| 0 <= i < ws.len() ==> is_bare(#[trigger] ws[i]),
    ensures
        words_of(spaced(ws)) == ws,
{
    if ws.len() == 0 {
        assert(words_of(spaced(ws)) =~= ws);
    } else {
        lemma_bare_words(nothing_split(), ws);
        assert(Seq::<Seq<char>>::empty() + ws =~= ws);
    }
}

proof fn lemma_in_double(st: Split, s: Seq<char>, rest: Seq<char>)
    requires
        st.in_double,
        !st.in_single,
        st.open,
        !s.contains('"'),
    ensures
        split_all(st, s + rest) == split_all(Split { word: st.word + s, ..st }, rest),
    decreases s.len(),
{
    let t = s + rest;
    if s.len() == 0 {
        assert(t =~= rest);
        assert(st.word + s =~= st.word);
    } else {
        let c = s[0];
        assert(t[0] == c);
        assert(s.contains(c));
        let next = with_char(st, c);
        assert(split_step(st, c) == next);
        assert(t.skip(1) =~= s.skip(1) + rest);
        assert(!s.skip(1).contains('"')) by {
            if s.skip(1).contains('"') {
                let i = choose|i: int| 0 <= i < s.skip(1).len() && s.skip(1)[i] == '"';
                assert(s[i + 1] == '"');
            }
        }
        lemma_in_double(next, s.skip(1), rest);
        assert(next.word + s.skip(1) =~= st.word + s);
    }
}

/// Between double quotes everything is one word, blanks, single quotes and
/// backslashes too.
pub proof fn double_quotes_make_one_word(s: Seq<char>)
    requires
        !s.contains('"'),
    ensures
        words_of(seq!['"'] + s + seq!['"']) == seq![s],
{
    let t = seq!['"'] + s + seq!['"'];
    let end = seq!['"'];
    let st = nothing_split();
    let mid = Split { in_double: true, open: true, ..st };
    assert(t[0] == '"');
    assert(t.skip(1) =~= s + end);
    assert(split_step(st, '"') == mid);
    lemma_in_double(mid, s, end);
    let full = Split { word: mid.word + s, ..mid };
    assert(mid.word + s =~= s);
    assert(end.skip(1) =~= Seq::<char>::empty());
    assert(end[0] == '"');
    let last = split_step(full, '"');
    assert(split_all(full, end) == split_all(last, Seq::<char>::empty()));
    assert(split_all(last, Seq::<char>::empty()) == last);
    assert(words_of(t) =~= seq![s]);
}

/// A backslash in front of a blank makes it a part of the word.
pub proof fn backslash_keeps_a_blank(a: Seq<char>, b: Seq<char>)
    requires
        is_bare(a),
        is_bare(b),
    ensures
        words_of(a + seq!['\\', ' '] + b) == seq![a + seq![' '] + b],
{
    let t = a + seq!['\\', ' '] + b;
    let rest = seq!['\\', ' '] + b;
    let none = Seq::<char>::empty();
    let st = nothing_split();
    assert(t =~= a + rest);
    assert forall|i: int| 0 <= i < a.len() implies !is_white(#[trigger] a[i]) && a[i] != '\''
        && a[i] != '"' && a[i] != '\\' by {}
    assert forall|i: int| 0 <= i < b.len() implies !is_white(#[trigger] b[i]) && b[i] != '\''
        && b[i] != '"' && b[i] != '\\' by {}
    lemma_bare(st, a, rest);
    let one = Split { word: st.word + a, open: true, ..st };
    assert(st.word + a =~= a);
    assert(rest[0] == '\\' && rest[1] == ' ');
    assert(rest.skip(2) =~= b);
    let two = with_char(one, ' ');
    assert(split_all(one, rest) == split_all(two, b));
    assert(b + none =~= b);
    lemma_bare(two, b, none);
    assert(two.word + b =~= a + seq![' '] + b);
    assert(words_of(t) =~= seq![a + seq![' '] + b]);
}

// ---------------------------------------------------------------------------
// Entries
// ---------------------------------------------------------------------------

/// A symbolic link carries where it points, behind its length; a regular file
/// carries its checksum where the list has checksums; a directory carries
/// nothing.
pub proof fn entries_end_by_their_kind(f: FileEntry, protocol: u32, n: nat, p: Preserve)
    ensures
        f.file_type() == FileType::Symlink ==> special_bytes(f, protocol, n, p) == enc_varint(
            encode_utf8(link_text(f)).len() as i32,
        ) + encode_utf8(link_text(f)),
        f.file_type() == FileType::Regular && n == 0 ==> special_bytes(f, protocol, n, p) == Seq::<
            u8,
        >::empty(),
        f.file_type() == FileType::Regular && n > 0 && f.checksum is Some && f.checksum->0.len()
            == n ==> special_bytes(f, protocol, n, p) == f.checksum->0,
        f.file_type() == FileType::Dir ==> special_bytes(f, protocol, n, p) == Seq::<u8>::empty(),
        f.link_target matches Some(t) ==> link_text(f) == t,
{
    let b = special_bytes(f, protocol, n, p);
    let none = Seq::<u8>::empty();
    if f.file_type() == FileType::Symlink {
        assert(b =~= enc_varint(encode_utf8(link_text(f)).len() as i32) + encode_utf8(
            link_text(f),
        ));
    } else if f.file_type() == FileType::Regular {
        match f.checksum {
            Some(sum) => {
                if n > 0 && sum.len() == n {
                    assert(sum.take(n as int) =~= sum);
                    assert(b =~= sum);
                }
            },
            None => {},
        }
        if n == 0 {
            assert(b =~= none);
        }
    } else if f.file_type() == FileType::Dir {
        assert(b =~= none);
    }
}

/// Times go whole from protocol 30 on and in four bytes below it; a part of a
/// second goes behind them where there is one and both sides know of it.
pub proof fn times_go_by_protocol(f: FileEntry)
    ensures
        time_bytes(f, 4, 31) == enc_varlong(f.size, 3) + enc_varlong(f.modtime, 4),
        time_bytes(f, 4, 29) == enc_varlong(f.size, 3) + enc_int(short_time(f.modtime)),
        0 <= f.modtime <= i32::MAX ==> short_time(f.modtime) == f.modtime,
        time_bytes(f, 0x2000, 31) == enc_varlong(f.size, 3) + enc_varlong(f.modtime, 4)
            + enc_varint(signed32(f.mod_nsec as nat)),
        time_bytes(f, 0x80, 31) == enc_varlong(f.size, 3),
{
    assert(time_bytes(f, 4, 31) =~= enc_varlong(f.size, 3) + enc_varlong(f.modtime, 4));
    assert(time_bytes(f, 4, 29) =~= enc_varlong(f.size, 3) + enc_int(short_time(f.modtime)));
    assert(time_bytes(f, 0x2000, 31) =~= enc_varlong(f.size, 3) + enc_varlong(f.modtime, 4)
        + enc_varint(signed32(f.mod_nsec as nat)));
    assert(time_bytes(f, 0x80, 31) =~= enc_varlong(f.size, 3));
}

/// A name of a user or group goes as the number, the length of the name in one
/// byte, and the name.
pub proof fn names_go_behind_their_number(id: u32, name: Seq<char>)
    requires
        encode_utf8(name).len() <= 255,
    ensures
        name_bytes(id, name) == enc_varint(signed32(id as nat)) + seq![
            encode_utf8(name).len() as u8,
        ] + encode_utf8(name),
{
}

} // verus!
