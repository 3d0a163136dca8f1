//! How the two sides of a session agree on its terms.

use vstd::prelude::*;

use crate::checksum::strong::protocol_checksum;
use crate::flags::{flag_set, has_bit};
use crate::io::bytes::{bits32, ByteReader, WireError};
use crate::io::parse::{lemma_parse_int, parse_int, parse_varint};
use crate::io::varint::{
    bits32_of, dec_ndx, enc_int, enc_ndx, enc_varint, ndx_after, ndx_round_trip, read_int, read_ndx,
    read_varint, write_int, write_ndx, NdxState,
};
use crate::pipeline::receiver::GoodbyeStep;
use crate::protocol::constants::{CsumType, CF_VARINT_FLIST_FLAGS, NDX_DONE, PROTOCOL_VERSION};
use crate::protocol::types::Stats;
use crate::server::session_checksum;
use crate::session::{
    answers_goodbye, choose_compression, chosen_compression, csum_name, lists_bytes,
    lists_round_trip, offer_compat, offer_round_trip, offered_flags, parse_lists, parse_offer,
    parse_version, protocol_handshake, read_lists, read_offer, read_version, seed_of, stats_bytes,
    uses_zlib, versions_agree, write_lists, write_stats, write_version, HandshakeError,
};

verus! {

/// What both sides of a session agreed on.
#[derive(Clone, Copy, Debug, PartialEq, Eq, Structural)]
pub struct Terms {
    pub protocol: u32,
    pub csum_type: CsumType,
    /// How many bytes of checksum the file list carries for each file.
    pub checksum_len: usize,
    /// The seed of the block checksums.
    pub seed: i32,
    /// Whether file data is compressed.
    pub use_zlib: bool,
    pub compat_flags: u32,
}

/// The terms of a session.
pub open spec fn terms_of(
    protocol: u32,
    checksum: bool,
    seed: i32,
    use_zlib: bool,
    compat_flags: u32,
) -> Terms {
    Terms {
        protocol,
        csum_type: csum_name(protocol_checksum(protocol)),
        checksum_len: if checksum {
            16
        } else {
            0
        },
        seed,
        use_zlib,
        compat_flags,
    }
}

fn make_terms(protocol: u32, checksum: bool, seed: i32, use_zlib: bool, compat_flags: u32) -> (t:
    Terms)
    ensures
        t == terms_of(protocol, checksum, seed, use_zlib, compat_flags),
{
    let (csum_type, checksum_len) = session_checksum(protocol, checksum);
    Terms { protocol, csum_type, checksum_len, seed, use_zlib, compat_flags }
}

/// Whether data is compressed, given the other side's list of compressions.
pub open spec fn picks_zlib(list: Option<Seq<char>>) -> bool {
    chosen_compression(list) == Some("zlib"@)
}

/// Whether what is read, and what is written, goes in frames once the terms
/// are settled.
pub open spec fn framed(protocol: u32, am_server: bool) -> (bool, bool) {
    (protocol >= 30, am_server || protocol >= 30)
}

/// Whether what is read, and what is written, goes in frames once the terms
/// are settled.
pub fn framing(protocol: u32, am_server: bool) -> (res: (bool, bool))
    ensures
        res == framed(protocol, am_server),
        res == (protocol >= 30, am_server || protocol >= 30),
{
    (protocol >= 30, am_server || protocol >= 30)
}

// ---------------------------------------------------------------------------
// The server
// ---------------------------------------------------------------------------

/// How far a server is.
#[derive(Clone, Copy, Debug, PartialEq, Eq, Structural)]
pub enum ServerStage {
    /// The version of the client is still to come.
    Version,
    /// The lists of the client are still to come.
    Lists { protocol: u32, compat_flags: u32 },
    /// The seed is still to be made.
    Seed { protocol: u32, compat_flags: u32, use_zlib: bool },
    /// The terms are settled.
    Ready(Terms),
}

/// A server that agrees on terms with its client.
#[derive(Clone, Copy, Debug, PartialEq, Eq, Structural)]
pub struct ServerSetup {
    pub stage: ServerStage,
    /// Whether the versions were exchanged in words before.
    pub daemon: bool,
    pub compress: bool,
    pub checksum: bool,
}

/// A server's stage once the version is known.
pub open spec fn server_versioned(s: ServerSetup, protocol: u32) -> ServerStage {
    if protocol < 30 {
        ServerStage::Ready(terms_of(protocol, s.checksum, 0, false, 0))
    } else {
        ServerStage::Lists { protocol, compat_flags: offered_flags() }
    }
}

/// What a server sends once the version is known.
pub open spec fn server_offer(s: ServerSetup, protocol: u32) -> Seq<u8> {
    if protocol < 30 {
        Seq::empty()
    } else {
        enc_varint(offered_flags() as i32) + lists_bytes(s.compress)
    }
}

/// One step of a server: its next stage, the input that is left, and what it
/// sends.
pub open spec fn server_step(s: ServerSetup, input: Seq<u8>) -> Result<
    (ServerStage, Seq<u8>, Seq<u8>),
    HandshakeError,
> {
    match s.stage {
        ServerStage::Version => if s.daemon {
            Ok((server_versioned(s, PROTOCOL_VERSION), input, server_offer(s, PROTOCOL_VERSION)))
        } else {
            match parse_version(input) {
                Err(e) => Err(e),
                Ok((p, rest)) => Ok(
                    (
                        server_versioned(s, p),
                        rest,
                        enc_int(PROTOCOL_VERSION as i32) + server_offer(s, p),
                    ),
                ),
            }
        },
        ServerStage::Lists { protocol, compat_flags } => match parse_lists(input, s.compress) {
            Err(e) => Err(HandshakeError::Wire(e)),
            Ok((list, rest)) => Ok(
                (
                    ServerStage::Seed { protocol, compat_flags, use_zlib: picks_zlib(list) },
                    rest,
                    Seq::empty(),
                ),
            ),
        },
        _ => Ok((s.stage, input, Seq::empty())),
    }
}

impl ServerSetup {
    /// A server that has heard nothing yet.
    pub fn new(daemon: bool, compress: bool, checksum: bool) -> (s: ServerSetup)
        ensures
            s == (ServerSetup {
                stage: ServerStage::Version,
                daemon,
                compress,
                checksum,
            }),
    {
        ServerSetup { stage: ServerStage::Version, daemon, compress, checksum }
    }

    fn versioned(&mut self, protocol: u32, w: &mut Vec<u8>)
        ensures
            *final(self) == (ServerSetup {
                stage: server_versioned(*old(self), protocol),
                ..*old(self)
            }),
            final(w)@ == old(w)@ + server_offer(*old(self), protocol),
    {
        if protocol < 30 {
            self.stage = ServerStage::Ready(make_terms(protocol, self.checksum, 0, false, 0));
            assert(w@ =~= old(w)@ + Seq::<u8>::empty());
        } else {
            let compat_flags: u32 = offer_compat(w, self.compress);
            assert(w@ =~= old(w)@ + server_offer(*old(self), protocol));
            self.stage = ServerStage::Lists { protocol, compat_flags };
        }
    }

    /// Goes one step on, over what came from the client.  Where that is cut
    /// off, nothing is taken and nothing changes.
    pub fn step(&mut self, r: &mut ByteReader, w: &mut Vec<u8>) -> (res: Result<(), HandshakeError>)
        ensures
            match res {
                Ok(_) => server_step(*old(self), old(r)@) matches Ok((stage, rest, out))
                    && *final(self) == (ServerSetup { stage, ..*old(self) }) && final(r)@ == rest
                    && final(w)@ == old(w)@ + out,
                Err(e) => server_step(*old(self), old(r)@) == Err::<
                    (ServerStage, Seq<u8>, Seq<u8>),
                    HandshakeError,
                >(e) && *final(self) == *old(self) && match e {
                    HandshakeError::Wire(_) => final(r)@ == old(r)@ && final(w)@ == old(w)@,
                    _ => (parse_int(old(r)@) matches Ok((_, rest)) && final(r)@ == rest)
                        && final(w)@ == old(w)@ + enc_int(PROTOCOL_VERSION as i32),
                },
            },
    {
        match self.stage {
            ServerStage::Version => {
                if self.daemon {
                    self.versioned(PROTOCOL_VERSION, w);
                    return Ok(());
                }
                let ghost before = w@;
                match protocol_handshake(r, w, true) {
                    Err(e) => Err(e),
                    Ok(p) => {
                        self.versioned(p, w);
                        assert(w@ =~= before + (enc_int(PROTOCOL_VERSION as i32) + server_offer(
                            *old(self),
                            p,
                        )));
                        Ok(())
                    },
                }
            },
            ServerStage::Lists { protocol, compat_flags } => {
                match read_lists(r, self.compress) {
                    Err(e) => Err(HandshakeError::Wire(e)),
                    Ok(list) => {
                        let choice: Option<String> = choose_compression(&list);
                        let use_zlib: bool = uses_zlib(&choice);
                        self.stage = ServerStage::Seed { protocol, compat_flags, use_zlib };
                        assert(w@ =~= old(w)@ + Seq::<u8>::empty());
                        Ok(())
                    },
                }
            },
            _ => {
                assert(w@ =~= old(w)@ + Seq::<u8>::empty());
                Ok(())
            },
        }
    }

    /// Takes the end of the input: lists that are cut off there count as none,
    /// and no data is compressed.
    pub fn on_eof(&mut self, r: &mut ByteReader)
        ensures
            match old(self).stage {
                ServerStage::Lists { protocol, compat_flags } if parse_lists(
                    old(r)@,
                    old(self).compress,
                ) is Err => *final(self) == (ServerSetup {
                    stage: ServerStage::Seed { protocol, compat_flags, use_zlib: false },
                    ..*old(self)
                }) && final(r)@ == Seq::<u8>::empty(),
                _ => *final(self) == *old(self) && final(r)@ == old(r)@,
            },
    {
        match self.stage {
            ServerStage::Lists { protocol, compat_flags } => {
                let start: usize = r.position();
                match read_lists(r, self.compress) {
                    Err(_) => {
                        *r = ByteReader::new(Vec::new());
                        assert(r@ =~= Seq::<u8>::empty());
                        self.stage = ServerStage::Seed { protocol, compat_flags, use_zlib: false };
                    },
                    Ok(_) => {
                        r.seek(start);
                    },
                }
            },
            _ => {},
        }
    }

    /// Makes the seed of the time in seconds and the number of the process,
    /// and tells the client.
    pub fn give_seed(&mut self, secs: u64, pid: u32, w: &mut Vec<u8>)
        ensures
            match old(self).stage {
                ServerStage::Seed { protocol, compat_flags, use_zlib } => {
                    let seed = ((secs as u32) ^ (pid << 6)) as i32;
                    &&& *final(self) == (ServerSetup {
                        stage: ServerStage::Ready(
                            terms_of(protocol, old(self).checksum, seed, use_zlib, compat_flags),
                        ),
                        ..*old(self)
                    })
                    &&& final(w)@ == old(w)@ + enc_int(seed)
                },
                _ => *final(self) == *old(self) && final(w)@ == old(w)@,
            },
    {
        match self.stage {
            ServerStage::Seed { protocol, compat_flags, use_zlib } => {
                let seed: i32 = seed_of(secs, pid);
                write_int(w, seed);
                self.stage = ServerStage::Ready(
                    make_terms(protocol, self.checksum, seed, use_zlib, compat_flags),
                );
            },
            _ => {},
        }
    }
}

// ---------------------------------------------------------------------------
// The client
// ---------------------------------------------------------------------------

/// How far a client is.
#[derive(Clone, Copy, Debug, PartialEq, Eq, Structural)]
pub enum ClientStage {
    /// The version of the server is still to come.
    Version,
    /// The offer of the server is still to come.
    Offer { protocol: u32 },
    /// The seed is still to come.
    Seed { protocol: u32, compat_flags: u32, use_zlib: bool },
    /// The terms are settled.
    Ready(Terms),
}

/// A client that agrees on terms with its server.
#[derive(Clone, Copy, Debug, PartialEq, Eq, Structural)]
pub struct ClientSetup {
    pub stage: ClientStage,
    pub compress: bool,
    pub checksum: bool,
}

/// A client's stage once the version is known.
pub open spec fn client_versioned(checksum: bool, protocol: u32) -> ClientStage {
    if protocol < 30 {
        ClientStage::Ready(terms_of(protocol, checksum, 0, false, 0))
    } else {
        ClientStage::Offer { protocol }
    }
}

/// One step of a client: its next stage, the input that is left, and what it
/// sends.
pub open spec fn client_step(c: ClientSetup, input: Seq<u8>) -> Result<
    (ClientStage, Seq<u8>, Seq<u8>),
    HandshakeError,
> {
    match c.stage {
        ClientStage::Version => match parse_version(input) {
            Err(e) => Err(e),
            Ok((p, rest)) => Ok((client_versioned(c.checksum, p), rest, Seq::empty())),
        },
        ClientStage::Offer { protocol } => match parse_offer(input, c.compress) {
            Err(e) => Err(HandshakeError::Wire(e)),
            Ok(((compat_flags, list), rest)) => Ok(
                (
                    ClientStage::Seed { protocol, compat_flags, use_zlib: picks_zlib(list) },
                    rest,
                    if flag_set(compat_flags, CF_VARINT_FLIST_FLAGS) {
                        lists_bytes(c.compress)
                    } else {
                        Seq::empty()
                    },
                ),
            ),
        },
        ClientStage::Seed { protocol, compat_flags, use_zlib } => match parse_int(input) {
            Err(e) => Err(HandshakeError::Wire(e)),
            Ok((seed, rest)) => Ok(
                (
                    ClientStage::Ready(
                        terms_of(protocol, c.checksum, seed, use_zlib, compat_flags),
                    ),
                    rest,
                    Seq::empty(),
                ),
            ),
        },
        ClientStage::Ready(_) => Ok((c.stage, input, Seq::empty())),
    }
}

impl ClientSetup {
    /// A client that says which version it speaks.
    pub fn new(compress: bool, checksum: bool, w: &mut Vec<u8>) -> (c: ClientSetup)
        ensures
            c == (ClientSetup { stage: ClientStage::Version, compress, checksum }),
            final(w)@ == old(w)@ + enc_int(PROTOCOL_VERSION as i32),
    {
        write_version(w);
        ClientSetup { stage: ClientStage::Version, compress, checksum }
    }

    /// A client that settled on a version before.
    pub fn greeted(protocol: u32, compress: bool, checksum: bool) -> (c: ClientSetup)
        ensures
            c == (ClientSetup {
                stage: client_versioned(checksum, protocol),
                compress,
                checksum,
            }),
    {
        let stage: ClientStage = if protocol < 30 {
            ClientStage::Ready(make_terms(protocol, checksum, 0, false, 0))
        } else {
            ClientStage::Offer { protocol }
        };
        ClientSetup { stage, compress, checksum }
    }

    /// Goes one step on, over what came from the server.  Where that is cut
    /// off, nothing is taken and nothing changes.
    pub fn step(&mut self, r: &mut ByteReader, w: &mut Vec<u8>) -> (res: Result<(), HandshakeError>)
        ensures
            match res {
                Ok(_) => client_step(*old(self), old(r)@) matches Ok((stage, rest, out))
                    && *final(self) == (ClientSetup { stage, ..*old(self) }) && final(r)@ == rest
                    && final(w)@ == old(w)@ + out,
                Err(e) => client_step(*old(self), old(r)@) == Err::<
                    (ClientStage, Seq<u8>, Seq<u8>),
                    HandshakeError,
                >(e) && *final(self) == *old(self) && final(w)@ == old(w)@ && match e {
                    HandshakeError::Wire(_) => final(r)@ == old(r)@,
                    _ => parse_int(old(r)@) matches Ok((_, rest)) && final(r)@ == rest,
                },
            },
    {
        assert(w@ =~= old(w)@ + Seq::<u8>::empty());
        match self.stage {
            ClientStage::Version => match read_version(r) {
                Err(e) => Err(e),
                Ok(p) => {
                    let next: ClientSetup = ClientSetup::greeted(p, self.compress, self.checksum);
                    self.stage = next.stage;
                    Ok(())
                },
            },
            ClientStage::Offer { protocol } => match read_offer(r, self.compress) {
                Err(e) => Err(HandshakeError::Wire(e)),
                Ok(offer) => {
                    let choice: Option<String> = choose_compression(&offer.compressions);
                    let use_zlib: bool = uses_zlib(&choice);
                    if has_bit(offer.flags, CF_VARINT_FLIST_FLAGS) {
                        write_lists(w, self.compress);
                    }
                    self.stage = ClientStage::Seed {
                        protocol,
                        compat_flags: offer.flags,
                        use_zlib,
                    };
                    Ok(())
                },
            },
            ClientStage::Seed { protocol, compat_flags, use_zlib } => {
                proof {
                    reveal(parse_int);
                }
                match read_int(r) {
                    Err(e) => Err(HandshakeError::Wire(e)),
                    Ok(seed) => {
                        self.stage = ClientStage::Ready(
                            make_terms(protocol, self.checksum, seed, use_zlib, compat_flags),
                        );
                        Ok(())
                    },
                }
            },
            ClientStage::Ready(_) => Ok(()),
        }
    }

    /// Takes the end of the input: lists that are cut off there count as none,
    /// and no data is compressed.  The client still sends its own lists.
    pub fn on_eof(&mut self, r: &mut ByteReader, w: &mut Vec<u8>)
        ensures
            match (old(self).stage, parse_varint(old(r)@)) {
                (ClientStage::Offer { protocol }, Ok((f, rest))) if flag_set(
                    bits32(f) as u32,
                    CF_VARINT_FLIST_FLAGS,
                ) && parse_lists(rest, old(self).compress) is Err => *final(self) == (ClientSetup {
                    stage: ClientStage::Seed {
                        protocol,
                        compat_flags: bits32(f) as u32,
                        use_zlib: false,
                    },
                    ..*old(self)
                }) && final(r)@ == Seq::<u8>::empty() && final(w)@ == old(w)@ + lists_bytes(
                    old(self).compress,
                ),
                _ => *final(self) == *old(self) && final(r)@ == old(r)@ && final(w)@ == old(w)@,
            },
    {
        proof {
            reveal(parse_varint);
        }
        match self.stage {
            ClientStage::Offer { protocol } => {
                let start: usize = r.position();
                let compat_flags: u32 = match read_varint(r) {
                    Err(_) => return,
                    Ok(f) => bits32_of(f),
                };
                if !has_bit(compat_flags, CF_VARINT_FLIST_FLAGS) {
                    r.seek(start);
                    return;
                }
                match read_lists(r, self.compress) {
                    Err(_) => {
                        *r = ByteReader::new(Vec::new());
                        assert(r@ =~= Seq::<u8>::empty());
                        write_lists(w, self.compress);
                        self.stage = ClientStage::Seed { protocol, compat_flags, use_zlib: false };
                    },
                    Ok(_) => {
                        r.seek(start);
                    },
                }
            },
            _ => {},
        }
    }
}

// ---------------------------------------------------------------------------
// How a sender parts
// ---------------------------------------------------------------------------

/// How far a sender that is done is with parting.
#[derive(Clone, Copy, Debug, PartialEq, Eq, Structural)]
pub enum PartingStage {
    /// The word of the receiving side is still to come.
    First,
    /// The last word of the receiving side is still to come.
    Second,
    /// Nothing is to come.
    Over,
}

/// A server that has sent its files and parts from its client.
#[derive(Clone, Copy, Debug, PartialEq, Eq, Structural)]
pub struct Parting {
    pub stage: PartingStage,
    pub protocol: u32,
    pub ndx: NdxState,
}

/// One step of parting: what it becomes, the input that is left, and what is
/// sent.
pub open spec fn parting_step(p: Parting, input: Seq<u8>) -> Result<
    (Parting, Seq<u8>, Seq<u8>),
    WireError,
> {
    match p.stage {
        PartingStage::Over => Ok((p, input, Seq::empty())),
        _ => match dec_ndx(p.ndx.read, input) {
            Err(e) => Err(e),
            Ok(((ndx, after), n)) => {
                let heard = NdxState { read: after, ..p.ndx };
                let rest = input.skip(n as int);
                if p.stage == PartingStage::First && p.protocol >= 31 && ndx == NDX_DONE {
                    Ok(
                        (
                            Parting {
                                stage: PartingStage::Second,
                                protocol: p.protocol,
                                ndx: NdxState { write: ndx_after(heard.write, NDX_DONE), ..heard },
                            },
                            rest,
                            enc_ndx(heard.write, NDX_DONE),
                        ),
                    )
                } else {
                    Ok(
                        (
                            Parting {
                                stage: PartingStage::Over,
                                protocol: p.protocol,
                                ndx: heard,
                            },
                            rest,
                            Seq::empty(),
                        ),
                    )
                }
            },
        },
    }
}

impl Parting {
    /// A server that is done with its files: it reports its counters.
    pub fn new(protocol: u32, ndx: NdxState, stats: &Stats, w: &mut Vec<u8>) -> (p: Parting)
        ensures
            p == (Parting {
                stage: if protocol >= 29 {
                    PartingStage::First
                } else {
                    PartingStage::Over
                },
                protocol,
                ndx,
            }),
            final(w)@ == old(w)@ + stats_bytes(*stats, protocol),
    {
        write_stats(w, stats, protocol);
        let stage: PartingStage = if protocol >= 29 {
            PartingStage::First
        } else {
            PartingStage::Over
        };
        Parting { stage, protocol, ndx }
    }

    /// Goes one step on, over what came from the client.  Where that is cut
    /// off, nothing is taken and nothing changes.
    pub fn step(&mut self, r: &mut ByteReader, w: &mut Vec<u8>) -> (res: Result<(), WireError>)
        ensures
            match res {
                Ok(_) => parting_step(*old(self), old(r)@) == Ok::<
                    (Parting, Seq<u8>, Seq<u8>),
                    WireError,
                >((*final(self), final(r)@, final(w)@.skip(old(w)@.len() as int))) && old(
                    w,
                )@.is_prefix_of(final(w)@),
                Err(e) => parting_step(*old(self), old(r)@) == Err::<
                    (Parting, Seq<u8>, Seq<u8>),
                    WireError,
                >(e) && *final(self) == *old(self) && final(r)@ == old(r)@ && final(w)@ == old(w)@,
            },
    {
        let ghost start = w@;
        match self.stage {
            PartingStage::Over => {
                assert(w@.skip(start.len() as int) =~= Seq::<u8>::empty());
                return Ok(());
            },
            _ => {},
        }
        match read_ndx(r, &mut self.ndx) {
            Err(e) => Err(e),
            Ok(ndx) => {
                let first: bool = matches!(self.stage, PartingStage::First);
                if first && answers_goodbye(self.protocol, ndx) {
                    write_ndx(w, &mut self.ndx, NDX_DONE);
                    self.stage = PartingStage::Second;
                } else {
                    self.stage = PartingStage::Over;
                }
                assert(w@.skip(start.len() as int) =~= if self.stage == PartingStage::Second {
                    enc_ndx(old(self).ndx.write, NDX_DONE)
                } else {
                    Seq::<u8>::empty()
                });
                Ok(())
            },
        }
    }
}

/// How a client that has sent its files parts from its server.
pub open spec fn parting_steps(protocol: u32) -> Seq<GoodbyeStep> {
    if protocol >= 31 {
        seq![GoodbyeStep::TryRead, GoodbyeStep::Send, GoodbyeStep::TryRead]
    } else if protocol == 30 {
        seq![GoodbyeStep::TryRead]
    } else {
        Seq::empty()
    }
}

/// How a client that has sent its files parts from its server.
pub fn sender_parting(protocol: u32) -> (plan: Vec<GoodbyeStep>)
    ensures
        plan@ == parting_steps(protocol),
        plan@ == if protocol >= 31 {
            seq![GoodbyeStep::TryRead, GoodbyeStep::Send, GoodbyeStep::TryRead]
        } else if protocol == 30 {
            seq![GoodbyeStep::TryRead]
        } else {
            Seq::empty()
        },
{
    let mut plan: Vec<GoodbyeStep> = Vec::new();
    if protocol >= 30 {
        plan.push(GoodbyeStep::TryRead);
    }
    if protocol >= 31 {
        plan.push(GoodbyeStep::Send);
        plan.push(GoodbyeStep::TryRead);
    }
    assert(plan@ =~= if protocol >= 31 {
        seq![GoodbyeStep::TryRead, GoodbyeStep::Send, GoodbyeStep::TryRead]
    } else if protocol == 30 {
        seq![GoodbyeStep::TryRead]
    } else {
        Seq::<GoodbyeStep>::empty()
    });
    plan
}

// ---------------------------------------------------------------------------
// Laws
// ---------------------------------------------------------------------------

/// Two sides that know each other's version agree: whatever each side sends
/// is what the other waits for, and both end with the same terms.
pub proof fn terms_agree(
    daemon: bool,
    compress: bool,
    checksum: bool,
    seed: i32,
    to_server: Seq<u8>,
    to_client: Seq<u8>,
)
    ensures
        ({
            let version = if daemon {
                Seq::empty()
            } else {
                enc_int(PROTOCOL_VERSION as i32)
            };
            let s0 = ServerSetup {
                stage: ServerStage::Version,
                daemon,
                compress,
                checksum,
            };
            let c0 = ClientSetup {
                stage: if daemon {
                    client_versioned(checksum, PROTOCOL_VERSION)
                } else {
                    ClientStage::Version
                },
                compress,
                checksum,
            };
            let flags = offered_flags();
            let offer = server_offer(s0, PROTOCOL_VERSION);
            let zlib = picks_zlib(
                if compress {
                    Some("zlib none"@)
                } else {
                    None
                },
            );
            let s1 = ServerSetup {
                stage: ServerStage::Lists { protocol: PROTOCOL_VERSION, compat_flags: flags },
                ..s0
            };
            let c1 = ClientSetup { stage: ClientStage::Offer { protocol: PROTOCOL_VERSION }, ..c0 };
            let c2 = ClientSetup {
                stage: ClientStage::Seed {
                    protocol: PROTOCOL_VERSION,
                    compat_flags: flags,
                    use_zlib: zlib,
                },
                ..c0
            };
            let terms = terms_of(PROTOCOL_VERSION, checksum, seed, zlib, flags);
            &&& server_step(s0, version + to_server) == Ok::<_, HandshakeError>(
                (s1.stage, to_server, version + offer),
            )
            &&& daemon ==> c0 == c1
            &&& !daemon ==> client_step(c0, version + offer + to_client) == Ok::<_, HandshakeError>(
                (c1.stage, offer + to_client, Seq::<u8>::empty()),
            )
            &&& client_step(c1, offer + to_client) == Ok::<_, HandshakeError>(
                (c2.stage, to_client, lists_bytes(compress)),
            )
            &&& server_step(s1, lists_bytes(compress) + to_server) == Ok::<_, HandshakeError>(
                (
                    ServerStage::Seed {
                        protocol: PROTOCOL_VERSION,
                        compat_flags: flags,
                        use_zlib: zlib,
                    },
                    to_server,
                    Seq::<u8>::empty(),
                ),
            )
            &&& client_step(c2, enc_int(seed) + to_client) == Ok::<_, HandshakeError>(
                (ClientStage::Ready(terms), to_client, Seq::<u8>::empty()),
            )
        }),
{
    let version: Seq<u8> = if daemon {
        Seq::empty()
    } else {
        enc_int(PROTOCOL_VERSION as i32)
    };
    let offer = enc_varint(offered_flags() as i32) + lists_bytes(compress);
    versions_agree(to_server);
    versions_agree(offer + to_client);
    assert(version + offer + to_client =~= version + (offer + to_client));
    if daemon {
        assert(version + to_server =~= to_server);
        assert(version + offer =~= offer);
    }
    offer_round_trip(compress, to_client);
    lists_round_trip(compress, to_server);
    lemma_parse_int(seed, to_client);
}

/// A client of the current protocol and a server part cleanly: the server
/// answers the client's word and is done with its second one.
pub proof fn parting_is_clean(ndx: NdxState, tail: Seq<u8>)
    ensures
        ({
            let p = Parting { stage: PartingStage::First, protocol: PROTOCOL_VERSION, ndx };
            let done = enc_ndx(ndx.read, NDX_DONE);
            parting_step(p, done + done + tail) matches Ok((q, rest, out)) && q.stage
                == PartingStage::Second && rest == done + tail && out == enc_ndx(
                ndx.write,
                NDX_DONE,
            ) && (parting_step(q, rest) matches Ok((r, left, none)) && r.stage
                == PartingStage::Over && left == tail && none.len() == 0)
        }),
{
    let done = enc_ndx(ndx.read, NDX_DONE);
    assert(done + done + tail =~= done + (done + tail));
    ndx_round_trip(ndx.read, NDX_DONE, done + tail);
    ndx_round_trip(ndx.read, NDX_DONE, tail);
    assert((done + (done + tail)).skip(done.len() as int) =~= done + tail);
    assert((done + tail).skip(done.len() as int) =~= tail);
}

} // verus!
