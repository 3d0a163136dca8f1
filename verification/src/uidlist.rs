//! Lists of user and group names.
//!
//! The sender tells the receiver what its user and group numbers are called,
//! and the receiver looks the names up on its own side.  Each number is
//! followed by the length of its name and the name; the number 0 ends a list
//! and is never sent as an entry.

use std::collections::HashMap;

use vstd::prelude::*;
use vstd::std_specs::hash::spec_keys_iter;
use vstd::std_specs::iter::IteratorSpec;
use vstd::utf8::encode_utf8;

use crate::io::bytes::{bits32, put_bytes, signed32, ByteReader, WireError};
use crate::io::parse::{
    lemma_parse_byte, lemma_parse_bytes, lemma_parse_varint, parse_byte, parse_bytes, parse_varint,
};
use crate::io::varint::{
    bits32_of, enc_varint, read_byte, read_varint, signed32_of, write_byte, write_varint,
};
use crate::text::{decimal, push_decimal, text_of, text_round_trip, utf8_lossy};

verus! {

broadcast use vstd::std_specs::hash::group_hash_axioms;

/// The names of users and groups, by number.
#[derive(Debug, Clone)]
pub struct UidList {
    pub uid_map: HashMap<u32, String>,
    pub gid_map: HashMap<u32, String>,
}

/// The model of a map of names.
pub open spec fn names_of(m: HashMap<u32, String>) -> Map<u32, Seq<char>> {
    m@.map_values(|s: String| s@)
}

/// The numbers below `n` in a set, in ascending order.
pub open spec fn ids_below(dom: Set<u32>, n: nat) -> Seq<u32>
    decreases n,
{
    if n == 0 {
        Seq::empty()
    } else {
        let before = ids_below(dom, (n - 1) as nat);
        if dom.contains((n - 1) as u32) {
            before.push((n - 1) as u32)
        } else {
            before
        }
    }
}

/// The numbers in a set, in ascending order.
pub open spec fn ids_of(dom: Set<u32>) -> Seq<u32> {
    ids_below(dom, 0x1_0000_0000)
}

/// What is sent of a name: at most 255 bytes of it.
pub open spec fn sent_name(name: Seq<char>) -> Seq<u8> {
    let b = encode_utf8(name);
    if b.len() > 255 {
        b.take(255)
    } else {
        b
    }
}

/// An entry on the wire.
pub open spec fn name_bytes(id: u32, name: Seq<char>) -> Seq<u8> {
    enc_varint(signed32(id as nat)) + seq![sent_name(name).len() as u8] + sent_name(name)
}

/// Entries on the wire, one behind the other.
pub open spec fn entries_bytes(ids: Seq<u32>, m: Map<u32, Seq<char>>) -> Seq<u8>
    decreases ids.len(),
{
    if ids.len() == 0 {
        Seq::empty()
    } else if ids[0] == 0 {
        entries_bytes(ids.skip(1), m)
    } else {
        name_bytes(ids[0], m[ids[0]]) + entries_bytes(ids.skip(1), m)
    }
}

/// A list on the wire: its entries in ascending order and the end marker.
pub open spec fn list_bytes(m: Map<u32, Seq<char>>) -> Seq<u8> {
    entries_bytes(ids_of(m.dom()), m) + enc_varint(0)
}

/// What reading a list into a map gives: the bytes behind the list or the
/// error that stopped the reader, and the map with the entries read so far.
pub open spec fn list_read(buf: Seq<u8>, m: Map<u32, Seq<char>>) -> (
    Result<Seq<u8>, WireError>,
    Map<u32, Seq<char>>,
)
    decreases buf.len(),
{
    match parse_varint(buf) {
        Err(e) => (Err(e), m),
        Ok((id, rest)) => if id == 0 {
            (Ok(rest), m)
        } else {
            match parse_byte(rest) {
                Err(e) => (Err(e), m),
                Ok((len, rest)) => match parse_bytes(rest, len as int) {
                    Err(e) => (Err(e), m),
                    Ok((name, rest)) => if rest.len() < buf.len() {
                        list_read(rest, m.insert(bits32(id) as u32, text_of(name)))
                    } else {
                        (Err(WireError::UnexpectedEof), m)
                    },
                },
            }
        },
    }
}

spec fn ascending(s: Seq<u32>) -> bool {
    forall|i: int, j: int| 0 <= i < j < s.len() ==> s[i] < s[j]
}

proof fn lemma_ids_below(s: Seq<u32>, dom: Set<u32>, n: nat)
    requires
        n <= 0x1_0000_0000,
        ascending(s),
        forall|x: u32| s.contains(x) <==> dom.contains(x) && x < n,
    ensures
        s == ids_below(dom, n),
    decreases n,
{
    if n == 0 {
        if s.len() > 0 {
            assert(s.contains(s[0]));
        }
        assert(s =~= ids_below(dom, n));
    } else {
        let top = (n - 1) as u32;
        if dom.contains(top) {
            assert(s.contains(top));
            let k = choose|k: int| 0 <= k < s.len() && s[k] == top;
            if k < s.len() - 1 {
                assert(s.contains(s[k + 1]));
                assert(s[k] < s[k + 1]);
            }
            let t = s.drop_last();
            assert forall|x: u32| t.contains(x) <==> dom.contains(x) && x < n - 1 by {
                if t.contains(x) {
                    let i = choose|i: int| 0 <= i < t.len() && t[i] == x;
                    assert(s[i] == x);
                    assert(s.contains(x));
                    assert(s[i] < s[k]);
                }
                if dom.contains(x) && x < n - 1 {
                    assert(s.contains(x));
                    let i = choose|i: int| 0 <= i < s.len() && s[i] == x;
                    assert(t[i] == x);
                }
            }
            lemma_ids_below(t, dom, (n - 1) as nat);
            assert(s =~= t.push(top));
        } else {
            assert forall|x: u32| s.contains(x) <==> dom.contains(x) && x < n - 1 by {}
            lemma_ids_below(s, dom, (n - 1) as nat);
        }
    }
}

/// Puts a number into its place among ascending ones.
fn insert_ascending(v: &mut Vec<u32>, x: u32)
    requires
        ascending(old(v)@),
        !old(v)@.contains(x),
    ensures
        ascending(final(v)@),
        forall|y: u32| final(v)@.contains(y) <==> old(v)@.contains(y) || y == x,
{
    let mut i: usize = v.len();
    while i > 0 && v[i - 1] > x
        invariant
            i <= v@.len(),
            ascending(v@),
            *v == *old(v),
            forall|k: int| i <= k < v@.len() ==> v@[k] > x,
        decreases i,
    {
        i = i - 1;
    }
    let ghost before = v@;
    if i > 0 {
        assert(before.contains(before[i - 1]));
    }
    v.insert(i, x);
    proof {
        let after = v@;
        assert forall|a: int, b: int| 0 <= a < b < after.len() implies after[a] < after[b] by {
            let a0 = if a < i { a } else { a - 1 };
            let b0 = if b < i { b } else { b - 1 };
        }
        assert forall|y: u32| after.contains(y) <==> before.contains(y) || y == x by {
            if after.contains(y) {
                let k = choose|k: int| 0 <= k < after.len() && after[k] == y;
                if k < i {
                    assert(before[k] == y);
                } else if k > i {
                    assert(before[k - 1] == y);
                }
            }
            if before.contains(y) {
                let k = choose|k: int| 0 <= k < before.len() && before[k] == y;
                if k < i {
                    assert(after[k] == y);
                } else {
                    assert(after[k + 1] == y);
                }
            }
            assert(after[i as int] == x);
        }
    }
}

/// The numbers in a map, in ascending order.
fn sorted_ids(m: &HashMap<u32, String>) -> (ids: Vec<u32>)
    ensures
        ids@ == ids_of(m@.dom()),
{
    let mut ids: Vec<u32> = Vec::new();
    let ghost order = spec_keys_iter(m).remaining().unref();
    for k in it: m.keys()
        invariant
            it.seq().unref() == order,
            order.no_duplicates(),
            ascending(ids@),
            forall|x: u32| ids@.contains(x) <==> order.take(it.index() as int).contains(x),
    {
        proof {
            let i = it.index() as int;
            let before = order.take(i);
            let after = order.take(i + 1);
            assert(order[i] == *k);
            assert(after =~= before.push(*k));
            if before.contains(*k) {
                let j = choose|j: int| 0 <= j < before.len() && before[j] == *k;
                assert(order[j] == order[i]);
            }
            assert forall|x: u32| after.contains(x) <==> before.contains(x) || x == *k by {
                if before.contains(x) {
                    let j = choose|j: int| 0 <= j < before.len() && before[j] == x;
                    assert(after[j] == x);
                }
                assert(after[i] == *k);
            }
        }
        insert_ascending(&mut ids, *k);
    }
    proof {
        assert(order.take(order.len() as int) =~= order);
        assert forall|x: u32| ids@.contains(x) <==> m@.dom().contains(x) by {
            assert(order.to_set().contains(x) == order.contains(x));
        }
        lemma_ids_below(ids@, m@.dom(), 0x1_0000_0000);
    }
    ids
}

/// Writes a list.
fn send_map(w: &mut Vec<u8>, map: &HashMap<u32, String>)
    ensures
        final(w)@ == old(w)@ + list_bytes(names_of(*map)),
{
    let ids: Vec<u32> = sorted_ids(map);
    let ghost m = names_of(*map);
    assert(m.dom() =~= map@.dom());
    let ghost all = ids@;
    let mut i: usize = 0;
    assert(all.skip(0) =~= all);
    while i < ids.len()
        invariant
            i <= ids@.len(),
            ids@ == all,
            all == ids_of(map@.dom()),
            m == names_of(*map),
            w@ + entries_bytes(all.skip(i as int), m) == old(w)@ + entries_bytes(all, m),
        decreases ids@.len() - i,
    {
        let id: u32 = ids[i];
        let ghost rest = all.skip(i as int);
        assert(rest[0] == id);
        assert(rest.skip(1) =~= all.skip(i + 1));
        proof {
            lemma_ids_in(map@.dom(), 0x1_0000_0000, i as int);
        }
        if id != 0 {
            match map.get(&id) {
                Some(name) => {
                    assert(m[id] == name@);
                    let b: &[u8] = name.as_str().as_bytes();
                    let n: usize = if b.len() > 255 {
                        255
                    } else {
                        b.len()
                    };
                    let part: &[u8] = b.split_at(n).0;
                    assert(part@ =~= sent_name(name@));
                    let ghost before = w@;
                    write_varint(w, signed32_of(id));
                    write_byte(w, n as u8);
                    put_bytes(w, part);
                    assert(w@ =~= before + name_bytes(id, name@));
                    assert(before + (name_bytes(id, name@) + entries_bytes(rest.skip(1), m)) =~= w@
                        + entries_bytes(rest.skip(1), m));
                },
                None => {
                    assert(false);
                },
            }
        }
        i = i + 1;
    }
    assert(w@ + entries_bytes(all.skip(i as int), m) =~= w@);
    let ghost before = w@;
    write_varint(w, 0);
    assert(w@ =~= old(w)@ + list_bytes(m));
}

proof fn lemma_ids_in(dom: Set<u32>, n: nat, i: int)
    requires
        n <= 0x1_0000_0000,
        0 <= i < ids_below(dom, n).len(),
    ensures
        dom.contains(ids_below(dom, n)[i]),
    decreases n,
{
    let before = ids_below(dom, (n - 1) as nat);
    if i < before.len() {
        lemma_ids_in(dom, (n - 1) as nat, i);
    }
}

/// Reads a list into a map.
fn recv_map(r: &mut ByteReader, map: &mut HashMap<u32, String>) -> (res: Result<(), WireError>)
    ensures
        names_of(*final(map)) == list_read(old(r)@, names_of(*old(map))).1,
        match res {
            Ok(_) => list_read(old(r)@, names_of(*old(map))).0 == Ok::<Seq<u8>, WireError>(
                final(r)@,
            ),
            Err(e) => list_read(old(r)@, names_of(*old(map))).0 == Err::<Seq<u8>, WireError>(e),
        },
{
    loop
        invariant
            list_read(r@, names_of(*map)) == list_read(old(r)@, names_of(*old(map))),
        decreases r@.len(),
    {
        let ghost buf = r@;
        proof {
            reveal(parse_varint);
            reveal(parse_byte);
            reveal(parse_bytes);
        }
        let id: i32 = match read_varint(r) {
            Ok(id) => id,
            Err(e) => return Err(e),
        };
        if id == 0 {
            return Ok(());
        }
        let ghost b1 = r@;
        let len: u8 = match read_byte(r) {
            Ok(len) => len,
            Err(e) => return Err(e),
        };
        let ghost b2 = r@;
        assert(b2.len() < b1.len() <= buf.len());
        let name: Vec<u8> = match r.take_bytes(len as usize) {
            Ok(b) => b,
            Err(e) => return Err(e),
        };
        let text: String = utf8_lossy(name.as_slice());
        let key: u32 = bits32_of(id);
        let ghost before = names_of(*map);
        map.insert(key, text);
        assert(names_of(*map) =~= before.insert(key, text@));
        assert(text@ == text_of(name@));
        assert(list_read(buf, before) == list_read(r@, names_of(*map)));
    }
}

impl Default for UidList {
    fn default() -> (list: UidList)
        ensures
            names_of(list.uid_map) == Map::<u32, Seq<char>>::empty(),
            names_of(list.gid_map) == Map::<u32, Seq<char>>::empty(),
    {
        UidList::new()
    }
}

/// Calls `nix::unistd::User::from_uid` and keeps the name.  What comes back
/// depends on the accounts of the machine: nothing is said of it.
#[verifier::external_body]
fn user_name(uid: u32) -> (name: Option<String>) {
    nix::unistd::User::from_uid(nix::unistd::Uid::from_raw(uid)).ok().flatten().map(|u| u.name)
}

/// Calls `nix::unistd::Group::from_gid` and keeps the name.  What comes back
/// depends on the groups of the machine: nothing is said of it.
#[verifier::external_body]
fn group_name(gid: u32) -> (name: Option<String>) {
    nix::unistd::Group::from_gid(nix::unistd::Gid::from_raw(gid)).ok().flatten().map(|g| g.name)
}

/// Calls `nix::unistd::User::from_name` and keeps the number.  What comes
/// back depends on the accounts of the machine: nothing is said of it.
#[verifier::external_body]
fn user_number(name: &str) -> (uid: Option<u32>) {
    nix::unistd::User::from_name(name).ok().flatten().map(|u| u.uid.as_raw())
}

/// Calls `nix::unistd::Group::from_name` and keeps the number.  What comes
/// back depends on the groups of the machine: nothing is said of it.
#[verifier::external_body]
fn group_number(name: &str) -> (gid: Option<u32>) {
    nix::unistd::Group::from_name(name).ok().flatten().map(|g| g.gid.as_raw())
}

/// What an id is called: the name that was found, or the number itself.
pub open spec fn shown_name(id: u32, found: Option<Seq<char>>) -> Seq<char> {
    match found {
        Some(name) => name,
        None => decimal(id as nat),
    }
}

/// The map with a name for an id, unless it has one already.
pub open spec fn with_name(m: Map<u32, Seq<char>>, id: u32, found: Option<Seq<char>>) -> Map<
    u32,
    Seq<char>,
> {
    if m.dom().contains(id) {
        m
    } else {
        m.insert(id, shown_name(id, found))
    }
}

/// The local number of a name: the one that was found, or 0.
pub open spec fn local_id(found: Option<u32>) -> u32 {
    match found {
        Some(id) => id,
        None => 0,
    }
}

/// The model of a name that was looked up.
pub open spec fn found_name(found: Option<String>) -> Option<Seq<char>> {
    match found {
        Some(s) => Some(s@),
        None => None,
    }
}

/// Adds what was found for an id to a map of names.
pub fn add_name(map: &mut HashMap<u32, String>, id: u32, found: Option<String>)
    ensures
        names_of(*final(map)) == with_name(names_of(*old(map)), id, found_name(found)),
{
    let ghost before = names_of(*map);
    assert(before.dom() =~= map@.dom());
    if map.contains_key(&id) {
        return;
    }
    let name: String = match found {
        Some(name) => name,
        None => {
            let mut s: String = String::new();
            push_decimal(&mut s, id as u64);
            assert(s@ =~= decimal(id as nat));
            s
        },
    };
    map.insert(id, name);
    assert(names_of(*map) =~= before.insert(id, name@));
}

/// The name that a number is listed under: what is looked up for it.
pub fn listed_name(map: &HashMap<u32, String>, id: u32) -> (res: Option<String>)
    ensures
        found_name(res) == if names_of(*map).dom().contains(id) {
            Some(names_of(*map)[id])
        } else {
            None
        },
{
    assert(names_of(*map).dom() =~= map@.dom());
    match map.get(&id) {
        Some(name) => Some(name.clone()),
        None => None,
    }
}

/// Takes what was found for a name as the local number.
pub fn take_id(found: Option<u32>) -> (id: u32)
    ensures
        id == local_id(found),
{
    match found {
        Some(id) => id,
        None => 0,
    }
}

impl UidList {
    /// Lists without entries.
    pub fn new() -> (list: UidList)
        ensures
            names_of(list.uid_map) == Map::<u32, Seq<char>>::empty(),
            names_of(list.gid_map) == Map::<u32, Seq<char>>::empty(),
    {
        let list: UidList = UidList { uid_map: HashMap::new(), gid_map: HashMap::new() };
        assert(names_of(list.uid_map) =~= Map::<u32, Seq<char>>::empty());
        assert(names_of(list.gid_map) =~= Map::<u32, Seq<char>>::empty());
        list
    }

    /// Looks up the name of a user by the number given, and adds it, unless the
    /// user is listed already.  A user without a name is listed by number.
    pub fn add_uid(&mut self, uid: u32)
        ensures
            exists|found: Option<Seq<char>>|
                names_of(final(self).uid_map) == #[trigger] with_name(
                    names_of(old(self).uid_map),
                    uid,
                    found,
                ),
            final(self).gid_map == old(self).gid_map,
    {
        if self.uid_map.contains_key(&uid) {
            assert(names_of(self.uid_map).dom() =~= self.uid_map@.dom());
            assert(names_of(self.uid_map) == with_name(names_of(old(self).uid_map), uid, None));
            return;
        }
        let found: Option<String> = user_name(uid);
        add_name(&mut self.uid_map, uid, found);
    }

    /// Looks up the name of a group by the number given, and adds it, unless the
    /// group is listed already.  A group without a name is listed by number.
    pub fn add_gid(&mut self, gid: u32)
        ensures
            exists|found: Option<Seq<char>>|
                names_of(final(self).gid_map) == #[trigger] with_name(
                    names_of(old(self).gid_map),
                    gid,
                    found,
                ),
            final(self).uid_map == old(self).uid_map,
    {
        if self.gid_map.contains_key(&gid) {
            assert(names_of(self.gid_map).dom() =~= self.gid_map@.dom());
            assert(names_of(self.gid_map) == with_name(names_of(old(self).gid_map), gid, None));
            return;
        }
        let found: Option<String> = group_name(gid);
        add_name(&mut self.gid_map, gid, found);
    }

    /// Writes the list of users.
    pub fn send_uid_list(&self, w: &mut Vec<u8>)
        ensures
            final(w)@ == old(w)@ + list_bytes(names_of(self.uid_map)),
    {
        send_map(w, &self.uid_map);
    }

    /// Writes the list of groups.
    pub fn send_gid_list(&self, w: &mut Vec<u8>)
        ensures
            final(w)@ == old(w)@ + list_bytes(names_of(self.gid_map)),
    {
        send_map(w, &self.gid_map);
    }

    /// Reads a list of users and adds its entries.
    pub fn recv_uid_list(&mut self, r: &mut ByteReader) -> (res: Result<(), WireError>)
        ensures
            names_of(final(self).uid_map) == list_read(old(r)@, names_of(old(self).uid_map)).1,
            final(self).gid_map == old(self).gid_map,
            match res {
                Ok(_) => list_read(old(r)@, names_of(old(self).uid_map)).0 == Ok::<
                    Seq<u8>,
                    WireError,
                >(final(r)@),
                Err(e) => list_read(old(r)@, names_of(old(self).uid_map)).0 == Err::<
                    Seq<u8>,
                    WireError,
                >(e),
            },
    {
        recv_map(r, &mut self.uid_map)
    }

    /// Reads a list of groups and adds its entries.
    pub fn recv_gid_list(&mut self, r: &mut ByteReader) -> (res: Result<(), WireError>)
        ensures
            names_of(final(self).gid_map) == list_read(old(r)@, names_of(old(self).gid_map)).1,
            final(self).uid_map == old(self).uid_map,
            match res {
                Ok(_) => list_read(old(r)@, names_of(old(self).gid_map)).0 == Ok::<
                    Seq<u8>,
                    WireError,
                >(final(r)@),
                Err(e) => list_read(old(r)@, names_of(old(self).gid_map)).0 == Err::<
                    Seq<u8>,
                    WireError,
                >(e),
            },
    {
        recv_map(r, &mut self.gid_map)
    }

    /// The local number of a user of the far end, looked up by the name that
    /// `listed_name` gives; 0 where the user is not listed or the name is not
    /// known here.
    pub fn map_uid(&self, uid: u32) -> (id: u32)
        ensures
            !names_of(self.uid_map).dom().contains(uid) ==> id == 0,
            exists|found: Option<u32>| id == #[trigger] local_id(found),
    {
        match listed_name(&self.uid_map, uid) {
            Some(name) => take_id(user_number(name.as_str())),
            None => take_id(None),
        }
    }

    /// The local number of a group of the far end, looked up by the name that
    /// `listed_name` gives; 0 where the group is not listed or the name is not
    /// known here.
    pub fn map_gid(&self, gid: u32) -> (id: u32)
        ensures
            !names_of(self.gid_map).dom().contains(gid) ==> id == 0,
            exists|found: Option<u32>| id == #[trigger] local_id(found),
    {
        match listed_name(&self.gid_map, gid) {
            Some(name) => take_id(group_number(name.as_str())),
            None => take_id(None),
        }
    }
}

// ---------------------------------------------------------------------------
// Laws
// ---------------------------------------------------------------------------

/// What the receiver makes of a name.
pub open spec fn received_name(name: Seq<char>) -> Seq<char> {
    text_of(sent_name(name))
}

/// What the receiver makes of some entries.
pub open spec fn entries_read(
    acc: Map<u32, Seq<char>>,
    ids: Seq<u32>,
    m: Map<u32, Seq<char>>,
) -> Map<u32, Seq<char>>
    decreases ids.len(),
{
    if ids.len() == 0 {
        acc
    } else if ids[0] == 0 {
        entries_read(acc, ids.skip(1), m)
    } else {
        entries_read(acc.insert(ids[0], received_name(m[ids[0]])), ids.skip(1), m)
    }
}

proof fn lemma_bits_of_signed(id: u32)
    ensures
        bits32(signed32(id as nat)) == id,
        id != 0 ==> signed32(id as nat) != 0,
{
}

proof fn lemma_entries_read(
    ids: Seq<u32>,
    m: Map<u32, Seq<char>>,
    acc: Map<u32, Seq<char>>,
    tail: Seq<u8>,
)
    ensures
        list_read(entries_bytes(ids, m) + enc_varint(0) + tail, acc) == (
            Ok::<Seq<u8>, WireError>(tail),
            entries_read(acc, ids, m),
        ),
    decreases ids.len(),
{
    let buf = entries_bytes(ids, m) + enc_varint(0) + tail;
    if ids.len() == 0 {
        assert(buf =~= enc_varint(0) + tail);
        lemma_parse_varint(0, tail);
    } else if ids[0] == 0 {
        lemma_entries_read(ids.skip(1), m, acc, tail);
    } else {
        let id = ids[0];
        let b = sent_name(m[id]);
        let next = entries_bytes(ids.skip(1), m) + enc_varint(0) + tail;
        let x = signed32(id as nat);
        let one = seq![b.len() as u8];
        assert(buf =~= enc_varint(x) + (one + (b + next)));
        lemma_parse_varint(x, one + (b + next));
        lemma_parse_byte(b.len() as u8, b + next);
        lemma_parse_bytes(b, next);
        lemma_bits_of_signed(id);
        assert(next.len() < buf.len());
        lemma_entries_read(ids.skip(1), m, acc.insert(id, received_name(m[id])), tail);
    }
}

proof fn lemma_entries_union(acc: Map<u32, Seq<char>>, ids: Seq<u32>, m: Map<u32, Seq<char>>)
    ensures
        ({
            let out = entries_read(acc, ids, m);
            forall|id: u32|
                {
                    &&& #[trigger] out.dom().contains(id) <==> acc.dom().contains(id) || (id != 0
                        && ids.contains(id))
                    &&& id != 0 && ids.contains(id) ==> out[id] == received_name(m[id])
                    &&& !(id != 0 && ids.contains(id)) && acc.dom().contains(id) ==> out[id]
                        == acc[id]
                }
        }),
    decreases ids.len(),
{
    if ids.len() > 0 {
        let rest = ids.skip(1);
        let next = if ids[0] == 0 {
            acc
        } else {
            acc.insert(ids[0], received_name(m[ids[0]]))
        };
        lemma_entries_union(next, rest, m);
        assert forall|id: u32| ids.contains(id) <==> rest.contains(id) || id == ids[0] by {
            if rest.contains(id) {
                let i = choose|i: int| 0 <= i < rest.len() && rest[i] == id;
                assert(ids[i + 1] == id);
            }
            if ids.contains(id) && id != ids[0] {
                let i = choose|i: int| 0 <= i < ids.len() && ids[i] == id;
                assert(rest[i - 1] == id);
            }
        }
        let out = entries_read(acc, ids, m);
        assert(out == entries_read(next, rest, m));
        assert(ids.contains(ids[0]));
        assert forall|id: u32|
            {
                &&& #[trigger] out.dom().contains(id) <==> acc.dom().contains(id) || (id != 0
                    && ids.contains(id))
                &&& id != 0 && ids.contains(id) ==> out[id] == received_name(m[id])
                &&& !(id != 0 && ids.contains(id)) && acc.dom().contains(id) ==> out[id] == acc[id]
            } by {
            assert(ids.contains(id) <==> rest.contains(id) || id == ids[0]);
            assert(next.dom().contains(id) <==> acc.dom().contains(id) || (ids[0] != 0 && id
                == ids[0]));
            assert(out.dom().contains(id) <==> next.dom().contains(id) || (id != 0 && rest.contains(id)));
            assert(out.dom().contains(id) <==> acc.dom().contains(id) || (id != 0
                    && ids.contains(id)));
            assert(id != 0 && ids.contains(id) ==> out[id] == received_name(m[id]));
            assert(!(id != 0 && ids.contains(id)) && acc.dom().contains(id) ==> out[id] == acc[id]);
        }
    }
}

proof fn lemma_ids_contain(dom: Set<u32>, n: nat, id: u32)
    requires
        n <= 0x1_0000_0000,
    ensures
        ids_below(dom, n).contains(id) <==> dom.contains(id) && id < n,
    decreases n,
{
    if n > 0 {
        let before = ids_below(dom, (n - 1) as nat);
        let all = ids_below(dom, n);
        lemma_ids_contain(dom, (n - 1) as nat, id);
        if before.contains(id) {
            let i = choose|i: int| 0 <= i < before.len() && before[i] == id;
            assert(all[i] == id);
        }
        if dom.contains((n - 1) as u32) {
            assert(all[before.len() as int] == (n - 1) as u32);
            if all.contains(id) && id != n - 1 {
                let i = choose|i: int| 0 <= i < all.len() && all[i] == id;
                assert(before[i] == id);
            }
        }
    }
}

/// A list that is sent is read back: every entry but that of the number 0
/// arrives, with its name as far as it was sent.
pub proof fn name_list_round_trip(
    m: Map<u32, Seq<char>>,
    acc: Map<u32, Seq<char>>,
    tail: Seq<u8>,
)
    ensures
        list_read(list_bytes(m) + tail, acc) == (
            Ok::<Seq<u8>, WireError>(tail),
            acc.union_prefer_right(m.remove(0).map_values(|s: Seq<char>| received_name(s))),
        ),
{
    let ids = ids_of(m.dom());
    lemma_entries_read(ids, m, acc, tail);
    lemma_entries_union(acc, ids, m);
    let out = entries_read(acc, ids, m);
    let want = acc.union_prefer_right(m.remove(0).map_values(|s: Seq<char>| received_name(s)));
    assert forall|id: u32| ids.contains(id) <==> m.dom().contains(id) by {
        lemma_ids_contain(m.dom(), 0x1_0000_0000, id);
    }
    assert forall|id: u32| out.dom().contains(id) <==> want.dom().contains(id) by {}
    assert(out.dom() =~= want.dom());
    assert forall|id: u32| want.dom().contains(id) implies out[id] == want[id] by {
        assert(out.dom().contains(id));
    }
    assert(out =~= want);
}

/// A name of at most 255 bytes arrives as it is.
pub proof fn short_names_survive(name: Seq<char>)
    requires
        encode_utf8(name).len() <= 255,
    ensures
        received_name(name) == name,
{
    text_round_trip(name);
}

} // verus!
