//! Running the far end on the same machine.

use vstd::prelude::*;

use crate::text::{lemma_texts_push, text, texts};

verus! {

/// The command line of a far end that was reached already: the program, that
/// it is to serve, its options, a dot, and the path.
pub open spec fn server_command(
    rsync_path: Seq<char>,
    server_args: Seq<Seq<char>>,
    path: Seq<char>,
) -> Seq<Seq<char>> {
    seq![rsync_path, "--server"@] + server_args + seq!["."@, path]
}

pub(crate) fn push_word(args: &mut Vec<String>, s: &str)
    ensures
        texts(final(args)@) == texts(old(args)@).push(s@),
{
    let t: String = text(s);
    proof {
        lemma_texts_push(args@, t);
    }
    args.push(t);
}

pub(crate) fn push_words(args: &mut Vec<String>, more: &[String])
    ensures
        texts(final(args)@) == texts(old(args)@) + texts(more@),
{
    let mut i: usize = 0;
    assert(texts(args@) =~= texts(old(args)@) + texts(more@).take(0));
    while i < more.len()
        invariant
            i <= more@.len(),
            texts(args@) == texts(old(args)@) + texts(more@).take(i as int),
        decreases more@.len() - i,
    {
        push_word(args, more[i].as_str());
        i = i + 1;
        assert(texts(args@) =~= texts(old(args)@) + texts(more@).take(i as int));
    }
    assert(texts(more@).take(i as int) =~= texts(more@));
}

/// The command line that runs the far end on this machine.
pub fn local_command(rsync_path: &str, server_args: &[String], path: &str) -> (args: Vec<String>)
    ensures
        texts(args@) == server_command(rsync_path@, texts(server_args@), path@),
{
    let mut args: Vec<String> = Vec::new();
    assert(texts(args@) =~= Seq::<Seq<char>>::empty());
    push_word(&mut args, rsync_path);
    push_word(&mut args, "--server");
    push_words(&mut args, server_args);
    push_word(&mut args, ".");
    push_word(&mut args, path);
    assert(texts(args@) =~= server_command(rsync_path@, texts(server_args@), path@));
    args
}

} // verus!
