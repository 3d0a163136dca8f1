//! Running the far end through a remote shell.

use vstd::prelude::*;

use crate::batch::{
    all_plain, escaped, escaped_char, is_alphanumeric, is_plain, quoted,
};
use crate::text::{chars_of, is_white, lemma_texts_push, string_of, texts, white};
use crate::transport::local::{push_word, push_words, server_command};

verus! {

/// A command being split into words.
#[verifier::ext_equal]
pub struct Split {
    /// The words that are complete.
    pub words: Seq<Seq<char>>,
    /// The word that is being read.
    pub word: Seq<char>,
    /// Whether there is such a word at all.
    pub open: bool,
    pub in_single: bool,
    pub in_double: bool,
}

/// Nothing read yet.
pub open spec fn nothing_split() -> Split {
    Split {
        words: Seq::empty(),
        word: Seq::empty(),
        open: false,
        in_single: false,
        in_double: false,
    }
}

/// Whether a backslash takes away the meaning of the character behind it.
pub open spec fn is_escapable(c: char) -> bool {
    c == ' ' || c == '\t' || c == '"' || c == '\'' || c == '\\'
}

/// Whether `s` starts with an escape.
pub open spec fn starts_with_escape(s: Seq<char>) -> bool {
    s.len() >= 2 && s[0] == '\\' && is_escapable(s[1])
}

/// One more character of a word.
pub open spec fn with_char(st: Split, c: char) -> Split {
    Split { word: st.word.push(c), open: true, ..st }
}

/// One more character that is no escape.
pub open spec fn split_step(st: Split, c: char) -> Split {
    if c == '\'' && !st.in_double {
        Split { in_single: !st.in_single, open: true, ..st }
    } else if c == '"' && !st.in_single {
        Split { in_double: !st.in_double, open: true, ..st }
    } else if is_white(c) && !st.in_single && !st.in_double {
        if st.open {
            Split { words: st.words.push(st.word), word: Seq::empty(), open: false, ..st }
        } else {
            st
        }
    } else {
        with_char(st, c)
    }
}

/// The state after the characters `s`.
pub open spec fn split_all(st: Split, s: Seq<char>) -> Split
    decreases s.len(),
{
    if s.len() == 0 {
        st
    } else if starts_with_escape(s) && !st.in_single && !st.in_double {
        split_all(with_char(st, s[1]), s.skip(2))
    } else {
        split_all(split_step(st, s[0]), s.skip(1))
    }
}

/// The words of a command.  White space outside quotes separates them; single
/// and double quotes take the meaning from what stands between them; outside
/// quotes a backslash does so for a blank, a tab, a quote or a backslash.
pub open spec fn words_of(s: Seq<char>) -> Seq<Seq<char>> {
    let st = split_all(nothing_split(), s);
    if st.open {
        st.words.push(st.word)
    } else {
        st.words
    }
}

/// Splits a command into words.
pub fn shell_split(s: &str) -> (out: Vec<String>)
    ensures
        texts(out@) == words_of(s@),
{
    let chars: Vec<char> = chars_of(s);
    let mut out: Vec<String> = Vec::new();
    let mut cur: Vec<char> = Vec::new();
    let mut in_single: bool = false;
    let mut in_double: bool = false;
    let mut has_token: bool = false;
    let mut i: usize = 0;
    let ghost goal = split_all(nothing_split(), s@);
    let ghost mut st = nothing_split();
    assert(texts(out@) =~= Seq::<Seq<char>>::empty());
    assert(cur@ =~= Seq::<char>::empty());
    assert(s@.skip(0) =~= s@);
    while i < chars.len()
        invariant
            i <= chars@.len(),
            chars@ == s@,
            st.words == texts(out@),
            st.word == cur@,
            st.open == has_token,
            st.in_single == in_single,
            st.in_double == in_double,
            !has_token ==> cur@.len() == 0,
            split_all(st, s@.skip(i as int)) == goal,
        decreases chars@.len() - i,
    {
        let c: char = chars[i];
        let ghost rest = s@.skip(i as int);
        assert(rest[0] == c);
        assert(rest.skip(1) =~= s@.skip(i + 1));
        if c == '\\' && !in_single && !in_double && chars.len() - i >= 2 {
            let next: char = chars[i + 1];
            assert(rest[1] == next);
            if next == ' ' || next == '\t' || next == '"' || next == '\'' || next == '\\' {
                assert(rest.skip(2) =~= s@.skip(i + 2));
                cur.push(next);
                has_token = true;
                i = i + 2;
                proof {
                    st = with_char(st, next);
                }
                continue;
            }
        }
        proof {
            st = split_step(st, c);
        }
        i = i + 1;
        if c == '\'' && !in_double {
            in_single = !in_single;
            has_token = true;
        } else if c == '"' && !in_single {
            in_double = !in_double;
            has_token = true;
        } else if white(c) && !in_single && !in_double {
            if has_token {
                let word: String = string_of(cur.as_slice());
                proof {
                    lemma_texts_push(out@, word);
                }
                out.push(word);
                cur = Vec::new();
                has_token = false;
            }
        } else {
            cur.push(c);
            has_token = true;
        }
    }
    assert(s@.skip(i as int) =~= Seq::<char>::empty());
    if has_token {
        let word: String = string_of(cur.as_slice());
        proof {
            lemma_texts_push(out@, word);
        }
        out.push(word);
    }
    out
}

/// Where the shell goes: the host, with the user in front if there is one.
pub open spec fn destination(host: Seq<char>, user: Option<Seq<char>>) -> Seq<char> {
    match user {
        Some(u) => u + seq!['@'] + host,
        None => host,
    }
}

/// The model of an optional name.
pub open spec fn name_of(user: Option<&str>) -> Option<Seq<char>> {
    match user {
        Some(u) => Some(u@),
        None => None,
    }
}

/// The command line that runs the far end through a shell: the words of the
/// shell's command, more arguments for it, where to go, and what to run
/// there.
pub open spec fn ssh_command_of(
    ssh_cmd: Seq<char>,
    ssh_args: Seq<Seq<char>>,
    host: Seq<char>,
    user: Option<Seq<char>>,
    rsync_path: Seq<char>,
    server_args: Seq<Seq<char>>,
    remote_path: Seq<char>,
) -> Option<Seq<Seq<char>>> {
    if words_of(ssh_cmd).len() == 0 {
        None
    } else {
        Some(
            words_of(ssh_cmd) + ssh_args + seq![destination(host, user)] + server_command(
                rsync_path,
                server_args,
                remote_path,
            ),
        )
    }
}

/// The command line that runs the far end through a shell; nothing where the
/// shell's command is empty.
pub fn ssh_command(
    ssh_cmd: &str,
    ssh_args: &[String],
    host: &str,
    user: Option<&str>,
    rsync_path: &str,
    server_args: &[String],
    remote_path: &str,
) -> (res: Option<Vec<String>>)
    ensures
        match res {
            Some(args) => ssh_command_of(
                ssh_cmd@,
                texts(ssh_args@),
                host@,
                name_of(user),
                rsync_path@,
                texts(server_args@),
                remote_path@,
            ) == Some(texts(args@)),
            None => words_of(ssh_cmd@).len() == 0,
        },
{
    let mut args: Vec<String> = shell_split(ssh_cmd);
    if args.len() == 0 {
        assert(texts(args@).len() == 0);
        return None;
    }
    assert(texts(args@).len() == args@.len());
    push_words(&mut args, ssh_args);
    let mut dest: String = String::new();
    match user {
        Some(u) => {
            dest.push_str(u);
            dest.push('@');
        },
        None => {},
    }
    dest.push_str(host);
    assert(dest@ =~= destination(host@, name_of(user)));
    push_word(&mut args, dest.as_str());
    push_word(&mut args, rsync_path);
    push_word(&mut args, "--server");
    push_words(&mut args, server_args);
    push_word(&mut args, ".");
    push_word(&mut args, remote_path);
    assert(texts(args@) =~= words_of(ssh_cmd@) + texts(ssh_args@) + seq![
        destination(host@, name_of(user)),
    ] + server_command(rsync_path@, texts(server_args@), remote_path@));
    Some(args)
}

// ---------------------------------------------------------------------------
// Laws
// ---------------------------------------------------------------------------

proof fn lemma_split_escaped(st: Split, s: Seq<char>, tail: Seq<char>)
    requires
        st.in_single,
        !st.in_double,
        st.open,
    ensures
        split_all(st, escaped(s) + tail) == split_all(Split { word: st.word + s, ..st }, tail),
    decreases s.len(),
{
    if s.len() == 0 {
        assert(escaped(s) + tail =~= tail);
        assert(st.word + s =~= st.word);
    } else {
        let c = s[0];
        let rest = escaped(s.skip(1)) + tail;
        let next = with_char(st, c);
        let all = escaped(s) + tail;
        assert(all =~= escaped_char(c) + rest);
        if c == '\'' {
            let shut = Split { in_single: false, ..st };
            assert(all[0] == '\'' && all[1] == '\\' && all[2] == '\'' && all[3] == '\'');
            assert(split_step(st, '\'') == shut);
            let s1 = all.skip(1);
            let s2 = s1.skip(2);
            assert(starts_with_escape(s1));
            assert(split_all(st, all) == split_all(shut, s1));
            assert(split_all(shut, s1) == split_all(with_char(shut, '\''), s2));
            assert(s2[0] == '\'');
            assert(s2.skip(1) =~= rest);
            assert(split_step(with_char(shut, '\''), '\'') =~= next);
        } else {
            assert(all.skip(1) =~= rest);
            assert(split_step(st, c) =~= next);
        }
        lemma_split_escaped(next, s.skip(1), tail);
        assert(next.word + s.skip(1) =~= st.word + s);
    }
}

proof fn lemma_split_plain(st: Split, s: Seq<char>)
    requires
        all_plain(s),
        !st.in_single,
        !st.in_double,
    ensures
        split_all(st, s) == (Split { word: st.word + s, open: st.open || s.len() > 0, ..st }),
    decreases s.len(),
{
    if s.len() == 0 {
        assert(st.word + s =~= st.word);
    } else {
        assert(is_plain(s[0]));
        let next = with_char(st, s[0]);
        assert(!is_alphanumeric('\\') && !is_alphanumeric('\'') && !is_alphanumeric('"'));
        assert(split_step(st, s[0]) =~= next);
        lemma_split_plain(next, s.skip(1));
        assert(next.word + s.skip(1) =~= st.word + s);
    }
}

/// A text that is quoted for the shell and split again comes out as one word,
/// the text itself.  An empty text is not quoted and makes no word.
pub proof fn quoted_text_is_one_word(s: Seq<char>)
    requires
        s.len() > 0,
    ensures
        words_of(quoted(s)) == seq![s],
{
    let st = nothing_split();
    if all_plain(s) {
        lemma_split_plain(st, s);
        assert(st.word + s =~= s);
    } else {
        let q = quoted(s);
        let rest = escaped(s) + seq!['\''];
        assert(q =~= seq!['\''] + rest);
        assert(q.skip(1) =~= rest);
        let opened = Split { in_single: true, open: true, ..st };
        assert(split_step(st, '\'') =~= opened);
        lemma_split_escaped(opened, s, seq!['\'']);
        let full = Split { word: opened.word + s, ..opened };
        let tail = seq!['\''];
        assert(tail.skip(1) =~= Seq::<char>::empty());
        assert(split_all(full, tail) == split_all(split_step(full, '\''), tail.skip(1)));
        assert(opened.word + s =~= s);
    }
    assert(words_of(quoted(s)) =~= seq![s]);
}

/// Some texts as the words of one command, each quoted for the shell.
pub open spec fn command_line(ws: Seq<Seq<char>>) -> Seq<char>
    decreases ws.len(),
{
    if ws.len() == 0 {
        Seq::empty()
    } else if ws.len() == 1 {
        quoted(ws[0])
    } else {
        quoted(ws[0]) + (seq![' '] + command_line(ws.skip(1)))
    }
}

proof fn lemma_split_plain_before(st: Split, s: Seq<char>, tail: Seq<char>)
    requires
        all_plain(s),
        !st.in_single,
        !st.in_double,
    ensures
        split_all(st, s + tail) == split_all(
            Split { word: st.word + s, open: st.open || s.len() > 0, ..st },
            tail,
        ),
    decreases s.len(),
{
    if s.len() == 0 {
        assert(s + tail =~= tail);
        assert(st.word + s =~= st.word);
    } else {
        assert(is_plain(s[0]));
        let next = with_char(st, s[0]);
        assert(!is_alphanumeric('\\') && !is_alphanumeric('\'') && !is_alphanumeric('"'));
        assert((s + tail)[0] == s[0]);
        assert((s + tail).skip(1) =~= s.skip(1) + tail);
        assert(split_step(st, s[0]) =~= next);
        lemma_split_plain_before(next, s.skip(1), tail);
        assert(next.word + s.skip(1) =~= st.word + s);
    }
}

/// A quoted text before other characters is read as one word.
proof fn lemma_split_quoted(st: Split, s: Seq<char>, tail: Seq<char>)
    requires
        s.len() > 0,
        !st.open,
        st.word.len() == 0,
        !st.in_single,
        !st.in_double,
    ensures
        split_all(st, quoted(s) + tail) == split_all(Split { word: s, open: true, ..st }, tail),
{
    if all_plain(s) {
        lemma_split_plain_before(st, s, tail);
        assert(st.word + s =~= s);
    } else {
        let end = seq!['\''] + tail;
        let rest = escaped(s) + end;
        let all = quoted(s) + tail;
        assert(all =~= seq!['\''] + rest);
        assert(all.skip(1) =~= rest);
        let opened = Split { in_single: true, open: true, ..st };
        assert(split_step(st, '\'') =~= opened);
        lemma_split_escaped(opened, s, end);
        let full = Split { word: opened.word + s, ..opened };
        assert(opened.word + s =~= s);
        assert(end.skip(1) =~= tail);
        assert(split_step(full, '\'') =~= (Split { word: s, open: true, ..st }));
        assert(split_all(full, end) == split_all(split_step(full, '\''), end.skip(1)));
    }
}

proof fn lemma_split_command(st: Split, ws: Seq<Seq<char>>)
    requires
        forall|i: int| 0 <= i < ws.len() ==> (#[trigger] ws[i]).len() > 0,
        !st.open,
        st.word.len() == 0,
        !st.in_single,
        !st.in_double,
    ensures
        ({
            let end = split_all(st, command_line(ws));
            (if end.open {
                end.words.push(end.word)
            } else {
                end.words
            }) == st.words + ws
        }),
    decreases ws.len(),
{
    if ws.len() == 0 {
        assert(st.words + ws =~= st.words);
    } else if ws.len() == 1 {
        let none = Seq::<char>::empty();
        assert(quoted(ws[0]) + none =~= quoted(ws[0]));
        lemma_split_quoted(st, ws[0], none);
        assert(st.words.push(ws[0]) =~= st.words + ws);
    } else {
        let more = ws.skip(1);
        let tail = seq![' '] + command_line(more);
        lemma_split_quoted(st, ws[0], tail);
        let read = Split { word: ws[0], open: true, ..st };
        let next = Split { words: st.words.push(ws[0]), word: Seq::empty(), ..st };
        assert(split_step(read, ' ') =~= next);
        assert(tail.skip(1) =~= command_line(more));
        assert(split_all(read, tail) == split_all(split_step(read, ' '), tail.skip(1)));
        assert forall|i: int| 0 <= i < more.len() implies (#[trigger] more[i]).len() > 0 by {
            assert(more[i] == ws[i + 1]);
        }
        lemma_split_command(next, more);
        assert(next.words + more =~= st.words + ws);
    }
}

/// Texts that are quoted for the shell, put behind each other with blanks
/// between them, and split again come out as those texts, as long as none is
/// empty.
pub proof fn quoted_texts_are_words(ws: Seq<Seq<char>>)
    requires
        forall|i: int| 0 <= i < ws.len() ==> (#[trigger] ws[i]).len() > 0,
    ensures
        words_of(command_line(ws)) == ws,
{
    let st = nothing_split();
    lemma_split_command(st, ws);
    assert(st.words + ws =~= ws);
}

} // verus!
