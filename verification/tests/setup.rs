use rsync_rs::io::bytes::{ByteReader, WireError};
use rsync_rs::io::varint::{write_ndx, NdxState};
use rsync_rs::pipeline::receiver::GoodbyeStep;
use rsync_rs::protocol::constants::{CsumType, NDX_DONE, PROTOCOL_VERSION};
use rsync_rs::protocol::types::Stats;
use rsync_rs::session::HandshakeError;
use rsync_rs::setup::{
    framing, sender_parting, ClientSetup, ClientStage, Parting, PartingStage, ServerSetup,
    ServerStage, Terms,
};

fn settle(daemon: bool, compress: bool) -> (Terms, Terms) {
    let mut to_server = Vec::new();
    let mut client = if daemon {
        ClientSetup::greeted(PROTOCOL_VERSION, compress, true)
    } else {
        ClientSetup::new(compress, true, &mut to_server)
    };
    let mut server = ServerSetup::new(daemon, compress, true);
    let mut to_client = Vec::new();
    let mut r = ByteReader::new(to_server);
    server.step(&mut r, &mut to_client).unwrap();
    let mut r = ByteReader::new(to_client);
    let mut answer = Vec::new();
    while !matches!(client.stage, ClientStage::Seed { .. }) {
        client.step(&mut r, &mut answer).unwrap();
    }
    assert_eq!(r.remaining(), 0);
    let mut none = Vec::new();
    server.step(&mut ByteReader::new(answer), &mut none).unwrap();
    assert!(none.is_empty());
    let mut seed = Vec::new();
    server.give_seed(1_700_000_000, 4711, &mut seed);
    client.step(&mut ByteReader::new(seed), &mut none).unwrap();
    match (server.stage, client.stage) {
        (ServerStage::Ready(a), ClientStage::Ready(b)) => (a, b),
        other => panic!("{:?}", other),
    }
}

#[test]
fn both_sides_end_with_the_same_terms() {
    for daemon in [false, true] {
        for compress in [false, true] {
            let (a, b) = settle(daemon, compress);
            assert_eq!(a, b);
            assert_eq!(a.protocol, PROTOCOL_VERSION);
            assert_eq!(a.csum_type, CsumType::Md5);
            assert_eq!(a.checksum_len, 16);
            assert_eq!(a.use_zlib, compress);
        }
    }
}

#[test]
fn an_old_client_gets_no_offer() {
    let mut server = ServerSetup::new(false, true, false);
    let mut out = Vec::new();
    server.step(&mut ByteReader::new(vec![29, 0, 0, 0]), &mut out).unwrap();
    assert_eq!(out, vec![31, 0, 0, 0]);
    match server.stage {
        ServerStage::Ready(t) => {
            assert_eq!((t.protocol, t.csum_type, t.seed), (29, CsumType::Md4Old, 0));
            assert!(!t.use_zlib);
        }
        other => panic!("{:?}", other),
    }
}

#[test]
fn a_cut_off_version_changes_nothing() {
    let mut server = ServerSetup::new(false, false, false);
    let mut out = Vec::new();
    let mut r = ByteReader::new(vec![31, 0]);
    assert_eq!(
        server.step(&mut r, &mut out),
        Err(HandshakeError::Wire(WireError::UnexpectedEof))
    );
    assert_eq!((r.remaining(), out.len()), (2, 0));
    assert_eq!(server.stage, ServerStage::Version);
}

#[test]
fn a_server_parts_after_two_words() {
    let mut words = Vec::new();
    let mut st = NdxState::new();
    write_ndx(&mut words, &mut st, NDX_DONE);
    write_ndx(&mut words, &mut st, NDX_DONE);
    let mut r = ByteReader::new(words);
    let mut out = Vec::new();
    let mut p = Parting::new(31, NdxState::new(), &Stats::default(), &mut out);
    let mut answer = Vec::new();
    p.step(&mut r, &mut answer).unwrap();
    assert_eq!((p.stage, answer.len()), (PartingStage::Second, 1));
    p.step(&mut r, &mut answer).unwrap();
    assert_eq!((p.stage, answer.len(), r.remaining()), (PartingStage::Over, 1, 0));
}

#[test]
fn parting_and_framing_follow_the_protocol() {
    assert_eq!(
        sender_parting(31),
        vec![GoodbyeStep::TryRead, GoodbyeStep::Send, GoodbyeStep::TryRead]
    );
    assert_eq!(sender_parting(30), vec![GoodbyeStep::TryRead]);
    assert!(sender_parting(29).is_empty());
    assert_eq!(framing(31, false), (true, true));
    assert_eq!(framing(29, true), (false, true));
    assert_eq!(framing(29, false), (false, false));
}

#[test]
fn a_version_that_is_refused_is_answered_with_ours_alone() {
    let mut server = ServerSetup::new(false, true, false);
    let mut out = Vec::new();
    let mut r = ByteReader::new(vec![0x13, 0, 0, 0, 9]);
    assert_eq!(server.step(&mut r, &mut out), Err(HandshakeError::TooOld(19)));
    assert_eq!(out, vec![0x1f, 0, 0, 0]);
    assert_eq!(r.remaining(), 1);
    let mut out = Vec::new();
    let mut r = ByteReader::new(vec![0xff, 0, 0, 0]);
    assert_eq!(server.step(&mut r, &mut out), Err(HandshakeError::TooNew(255)));
    assert_eq!(out, vec![0x1f, 0, 0, 0]);
}

#[test]
fn incremental_recursion_is_not_offered() {
    let mut server = ServerSetup::new(true, false, false);
    let mut out = Vec::new();
    server.step(&mut ByteReader::new(Vec::new()), &mut out).unwrap();
    assert_eq!(out, vec![0x80, 0x88, 0x03, b'm', b'd', b'5']);
}

#[test]
fn lists_that_are_cut_off_at_the_end_count_as_none() {
    let mut server = ServerSetup::new(true, true, false);
    let mut out = Vec::new();
    server.step(&mut ByteReader::new(Vec::new()), &mut out).unwrap();
    let mut r = ByteReader::new(vec![3, b'm', b'd']);
    assert_eq!(
        server.step(&mut r, &mut out),
        Err(HandshakeError::Wire(WireError::UnexpectedEof))
    );
    server.on_eof(&mut r);
    assert_eq!(r.remaining(), 0);
    assert!(matches!(server.stage, ServerStage::Seed { use_zlib: false, .. }));
    let mut client = ClientSetup::greeted(31, true, false);
    let mut r = ByteReader::new(vec![0x80, 0x88, 3, b'm', b'd', b'5', 4, b'z']);
    let mut out = Vec::new();
    client.on_eof(&mut r, &mut out);
    assert!(matches!(client.stage, ClientStage::Seed { compat_flags: 0x88, use_zlib: false, .. }));
    assert_eq!(out[..4], [3, b'm', b'd', b'5']);
}
