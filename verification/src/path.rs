//! Paths as sequences of components.

use vstd::prelude::*;

use crate::text::{
    chars_of, find_char, first_index, is_text, lemma_index_from, lemma_texts_push, same_text,
    string_of, text, texts,
};

verus! {

/// The parts of a text between slashes.
pub open spec fn parts(s: Seq<char>) -> Seq<Seq<char>>
    decreases s.len(),
{
    proof {
        lemma_index_from(s, '/', 0);
    }
    match first_index(s, '/') {
        None => seq![s],
        Some(i) => seq![s.take(i)] + parts(s.skip(i + 1)),
    }
}

/// The parts that name something: not the empty ones, and not a dot, which
/// stands for the directory that it is in.
pub open spec fn named_parts(ps: Seq<Seq<char>>) -> Seq<Seq<char>>
    decreases ps.len(),
{
    if ps.len() == 0 {
        Seq::empty()
    } else if ps[0].len() == 0 || ps[0] == "."@ {
        named_parts(ps.skip(1))
    } else {
        seq![ps[0]] + named_parts(ps.skip(1))
    }
}

/// Where a path starts: at the root, at a dot, or nowhere in particular.
pub open spec fn path_start(s: Seq<char>) -> Seq<Seq<char>> {
    if s.len() > 0 && s[0] == '/' {
        seq!["/"@]
    } else if parts(s)[0] == "."@ {
        seq!["."@]
    } else {
        Seq::empty()
    }
}

/// The components of a path: where it starts, and the parts that name
/// something.
pub open spec fn components(s: Seq<char>) -> Seq<Seq<char>> {
    path_start(s) + named_parts(parts(s))
}

/// The name of the file that a path leads to, where it names one.
pub open spec fn base_name(s: Seq<char>) -> Option<Seq<char>> {
    let c = components(s);
    if c.len() == 0 || c.last() == "/"@ || c.last() == "."@ || c.last() == ".."@ {
        None
    } else {
        Some(c.last())
    }
}

/// Whether a text ends with a slash.
pub open spec fn ends_with_slash(s: Seq<char>) -> bool {
    s.len() > 0 && s.last() == '/'
}

/// Whether a text ends with a slash.
pub fn has_trailing_slash(s: &str) -> (b: bool)
    ensures
        b == ends_with_slash(s@),
{
    let chars: Vec<char> = chars_of(s);
    chars.len() > 0 && chars[chars.len() - 1] == '/'
}

fn push_text(v: &mut Vec<String>, s: &str)
    ensures
        texts(final(v)@) == texts(old(v)@).push(s@),
{
    let t: String = text(s);
    proof {
        lemma_texts_push(v@, t);
    }
    v.push(t);
}

/// Takes a path apart.
pub fn split_path(s: &str) -> (out: Vec<String>)
    ensures
        texts(out@) == components(s@),
{
    let chars: Vec<char> = chars_of(s);
    let mut out: Vec<String> = Vec::new();
    assert(texts(out@) =~= Seq::<Seq<char>>::empty());
    let mut rest: &[char] = chars.as_slice();
    if rest.len() > 0 && rest[0] == '/' {
        push_text(&mut out, "/");
        assert(texts(out@) =~= path_start(s@));
    } else {
        let first: &[char] = match find_char(rest, '/') {
            None => rest,
            Some(i) => rest.split_at(i).0,
        };
        assert(first@ =~= parts(s@)[0]);
        if is_text(first, ".") {
            push_text(&mut out, ".");
        }
        assert(texts(out@) =~= path_start(s@));
    }
    let ghost head = path_start(s@);
    assert(texts(out@) + named_parts(parts(rest@)) =~= components(s@));
    loop
        invariant
            texts(out@) + named_parts(parts(rest@)) == components(s@),
        decreases rest@.len(),
    {
        let ghost here = parts(rest@);
        proof {
            lemma_index_from(rest@, '/', 0);
        }
        let (part, more): (&[char], Option<&[char]>) = match find_char(rest, '/') {
            None => (rest, None),
            Some(i) => {
                let (a, b) = rest.split_at(i);
                (a, Some(b.split_at(1).1))
            },
        };
        proof {
            match first_index(rest@, '/') {
                None => {
                    assert(here.skip(1) =~= Seq::<Seq<char>>::empty());
                },
                Some(i) => {
                    assert(part@ =~= rest@.take(i));
                    assert(more->0@ =~= rest@.skip(i + 1));
                    assert(here.skip(1) =~= parts(more->0@));
                },
            }
            assert(here[0] == part@);
        }
        let ghost before = texts(out@);
        if part.len() > 0 && !is_text(part, ".") {
            let name: String = string_of(part);
            push_text(&mut out, name.as_str());
            assert(texts(out@) + named_parts(here.skip(1)) =~= before + (seq![part@] + named_parts(
                here.skip(1),
            )));
        }
        match more {
            None => {
                assert(texts(out@) + named_parts(here.skip(1)) =~= texts(out@));
                return out;
            },
            Some(r) => {
                rest = r;
            },
        }
    }
}

/// The name of the file that a path leads to.
pub fn file_name(s: &str) -> (res: Option<String>)
    ensures
        match res {
            Some(n) => base_name(s@) == Some(n@),
            None => base_name(s@) == None::<Seq<char>>,
        },
{
    let c: Vec<String> = split_path(s);
    assert(texts(c@).len() == c@.len());
    if c.len() == 0 {
        return None;
    }
    let last: &String = &c[c.len() - 1];
    assert(last@ == texts(c@).last());
    if same_text(last.as_str(), "/") || same_text(last.as_str(), ".") || same_text(
        last.as_str(),
        "..",
    ) {
        None
    } else {
        Some(last.clone())
    }
}

/// Whether `a` is the beginning of `b`.
pub open spec fn is_front(a: Seq<Seq<char>>, b: Seq<Seq<char>>) -> bool {
    a.len() <= b.len() && a == b.take(a.len() as int)
}

/// Whether the path `a` is the beginning of the path `b`.
pub fn starts_path(a: &Vec<String>, b: &Vec<String>) -> (res: bool)
    ensures
        res == is_front(texts(a@), texts(b@)),
{
    if a.len() > b.len() {
        return false;
    }
    let mut i: usize = 0;
    while i < a.len()
        invariant
            i <= a@.len() <= b@.len(),
            forall|k: int| 0 <= k < i ==> a@[k]@ == b@[k]@,
        decreases a@.len() - i,
    {
        if !same_text(a[i].as_str(), b[i].as_str()) {
            assert(texts(a@)[i as int] != texts(b@).take(a@.len() as int)[i as int]);
            return false;
        }
        i = i + 1;
    }
    assert(texts(a@) =~= texts(b@).take(a@.len() as int));
    true
}

} // verus!
