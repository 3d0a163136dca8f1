//! The order of names, and how conversations end.

use vstd::prelude::*;
use vstd::utf8::encode_utf8;

use crate::flist::sort::{base_key, dir_bytes, dir_key, entry_less, is_dot, lex_less, sort_key};
use crate::pipeline::receiver::GoodbyeStep;
use crate::protocol::types::{FileEntry, FileType};
use crate::setup::parting_steps;
use crate::transport::daemon::{client_end, Action, ClientState, Failure};

verus! {

proof fn lemma_decides(a: Seq<int>, b: Seq<int>, k: nat, n: nat)
    requires
        k <= n,
        n < a.len(),
        n < b.len(),
        forall|i: int| k <= i < n ==> a[i] == b[i],
        a[n as int] < b[n as int],
    ensures
        lex_less(a, b, k),
        !lex_less(b, a, k),
    decreases n - k,
{
    if k < n {
        lemma_decides(a, b, k + 1, n);
    }
}

proof fn lemma_shorter(a: Seq<int>, b: Seq<int>, k: nat)
    requires
        k <= a.len() < b.len(),
        forall|i: int| k <= i < a.len() ==> a[i] == b[i],
    ensures
        lex_less(a, b, k),
        !lex_less(b, a, k),
    decreases a.len() - k,
{
    if k < a.len() {
        lemma_shorter(a, b, k + 1);
    }
}

/// Two files of one directory, or two directories in it, are in the order of
/// the first byte in which their names differ.
pub proof fn names_sort_by_their_bytes(a: FileEntry, b: FileEntry, k: int)
    requires
        a.dirname == b.dirname,
        (a.file_type() == FileType::Dir) == (b.file_type() == FileType::Dir),
        !is_dot(encode_utf8(a.name)),
        !is_dot(encode_utf8(b.name)),
        0 <= k < encode_utf8(a.name).len(),
        k < encode_utf8(b.name).len(),
        forall|i: int| 0 <= i < k ==> encode_utf8(a.name)[i] == encode_utf8(b.name)[i],
        encode_utf8(a.name)[k] < encode_utf8(b.name)[k],
    ensures
        entry_less(a, b),
        !entry_less(b, a),
{
    let x = encode_utf8(a.name);
    let y = encode_utf8(b.name);
    let d = dir_key(dir_bytes(a));
    let is_dir = a.file_type() == FileType::Dir;
    let ka = sort_key(a);
    let kb = sort_key(b);
    let n = (d.len() + k) as nat;
    assert(ka[n as int] == base_key(x, is_dir)[k]);
    assert(kb[n as int] == base_key(y, is_dir)[k]);
    assert forall|i: int| 0 <= i < n implies ka[i] == kb[i] by {
        if i >= d.len() {
            assert(ka[i] == base_key(x, is_dir)[i - d.len()]);
            assert(kb[i] == base_key(y, is_dir)[i - d.len()]);
            assert(x[i - d.len()] == y[i - d.len()]);
        }
    }
    lemma_decides(ka, kb, 0, n);
}

/// A file whose name is the beginning of another file's name in its directory
/// comes before it.
pub proof fn shorter_names_come_first(a: FileEntry, b: FileEntry)
    requires
        a.dirname == b.dirname,
        a.file_type() != FileType::Dir,
        b.file_type() != FileType::Dir,
        encode_utf8(a.name).len() < encode_utf8(b.name).len(),
        forall|i: int|
            0 <= i < encode_utf8(a.name).len() ==> encode_utf8(a.name)[i] == encode_utf8(b.name)[i],
    ensures
        entry_less(a, b),
        !entry_less(b, a),
{
    let x = encode_utf8(a.name);
    let y = encode_utf8(b.name);
    let d = dir_key(dir_bytes(a));
    let ka = sort_key(a);
    let kb = sort_key(b);
    assert forall|i: int| 0 <= i < ka.len() implies ka[i] == kb[i] by {
        if i >= d.len() {
            assert(ka[i] == base_key(x, false)[i - d.len()]);
            assert(kb[i] == base_key(y, false)[i - d.len()]);
            assert(x[i - d.len()] == y[i - d.len()]);
        }
    }
    lemma_shorter(ka, kb, 0);
}

/// A client whose connection ends before it is let in gives up; one that is let
/// in, or has given up, is left as it is.
pub proof fn early_ends_are_failures(protocol: u32)
    ensures
        client_end(ClientState::Greeting).0 == ClientState::Closed,
        client_end(ClientState::Greeting).1 == Action::Fail(
            Failure::BadGreeting(Seq::<char>::empty()),
        ),
        client_end(ClientState::Approval(protocol)) == (
            ClientState::Closed,
            Action::Fail(Failure::HungUp),
        ),
        client_end(ClientState::Ready(protocol)) == (ClientState::Ready(protocol), Action::Wait),
        client_end(ClientState::Closed) == (ClientState::Closed, Action::Wait),
{
}

/// A client that has sent its files listens once from protocol 30 on, and from
/// 31 on answers and listens again; it never waits for what may not come.
pub proof fn senders_part_by_protocol(protocol: u32)
    ensures
        ({
            let s = parting_steps(protocol);
            &&& s.len() == if protocol >= 31 {
                3int
            } else if protocol == 30 {
                1
            } else {
                0
            }
            &&& forall|k: int| 0 <= k < s.len() ==> #[trigger] s[k] != GoodbyeStep::Read
            &&& forall|k: int|
                0 <= k < s.len() ==> (#[trigger] s[k] == GoodbyeStep::Send) == (k == 1)
        }),
{
}

} // verus!
