use rsync_rs::io::bytes::{ByteReader, WireError};
use rsync_rs::io::multiplex::{
    report_message, report_mplex_message, MplexReader, MultiplexStream,
};
use rsync_rs::protocol::constants::{MsgCode, MPLEX_BASE};

fn make_stream(input: Vec<u8>) -> MultiplexStream {
    MultiplexStream::new(ByteReader::new(input), Vec::new())
}

fn mux_header(code: MsgCode, len: usize) -> [u8; 4] {
    let raw = ((MPLEX_BASE as u32 + code.as_u8() as u32) << 24) | (len as u32);
    raw.to_le_bytes()
}

#[test]
fn raw_read_passthrough() {
    let mut s = make_stream(vec![1, 2, 3, 4]);
    let buf = s.read_exact(4).unwrap();
    assert_eq!(buf, [1, 2, 3, 4]);
}

#[test]
fn mux_read_data_simple() {
    let mut input = mux_header(MsgCode::Data, 3).to_vec();
    input.extend_from_slice(&[0xAA, 0xBB, 0xCC]);

    let mut s = make_stream(input);
    s.start_multiplex_in();

    let buf = s.read_data(3).unwrap();
    assert_eq!(buf, [0xAA, 0xBB, 0xCC]);
}

#[test]
fn mux_read_data_across_frames() {
    let mut input = Vec::new();
    input.extend_from_slice(&mux_header(MsgCode::Data, 2));
    input.extend_from_slice(&[0x01, 0x02]);
    input.extend_from_slice(&mux_header(MsgCode::Data, 2));
    input.extend_from_slice(&[0x03, 0x04]);

    let mut s = make_stream(input);
    s.start_multiplex_in();

    let buf = s.read_data(4).unwrap();
    assert_eq!(buf, [0x01, 0x02, 0x03, 0x04]);
}

#[test]
fn mux_read_skips_info_frame() {
    let mut input = Vec::new();
    input.extend_from_slice(&mux_header(MsgCode::Info, 5));
    input.extend_from_slice(b"hello");
    input.extend_from_slice(&mux_header(MsgCode::Data, 2));
    input.extend_from_slice(&[0xDE, 0xAD]);

    let mut s = make_stream(input);
    s.start_multiplex_in();

    let buf = s.read_data(2).unwrap();
    assert_eq!(buf, [0xDE, 0xAD]);
}

#[test]
fn mux_write_data_produces_correct_header() {
    let mut s = make_stream(Vec::new());
    s.start_multiplex_out();
    s.write_data(&[0x11, 0x22, 0x33]);

    let out = s.flush();
    assert_eq!(out.len(), 7);
    let hdr = u32::from_le_bytes([out[0], out[1], out[2], out[3]]);
    assert_eq!((hdr >> 24) as u8, MPLEX_BASE + MsgCode::Data.as_u8());
    assert_eq!(hdr & 0x00FF_FFFF, 3);
    assert_eq!(&out[4..], &[0x11, 0x22, 0x33]);
}

#[test]
fn mux_write_msg_produces_correct_header() {
    let mut s = make_stream(Vec::new());
    s.start_multiplex_out();
    s.write_msg(MsgCode::Info, b"test").unwrap();

    let out = s.flush();
    let hdr = u32::from_le_bytes([out[0], out[1], out[2], out[3]]);
    assert_eq!((hdr >> 24) as u8, MPLEX_BASE + MsgCode::Info.as_u8());
    assert_eq!(&out[4..], b"test");
}

#[test]
fn header_encoding_matches_c_spec() {
    let expected = ((7u32 << 24) | 100u32).to_le_bytes();

    let mut s = make_stream(Vec::new());
    s.start_multiplex_out();
    s.write_data(&vec![0u8; 100]);

    assert_eq!(&s.flush()[..4], &expected);
}

#[test]
fn frames_of_unknown_kind_are_passed_over() {
    let mut r = MplexReader::new(ByteReader::new(vec![0x02, 0, 0, 0x12, b'x', b'y', 0x01, 0, 0, 0x07, b'z']));
    r.enable();
    assert_eq!(r.read(4).unwrap(), b"z");
    assert!(r.take_messages().is_empty());
}

#[test]
fn data_is_read_from_any_cut() {
    let mut input = Vec::new();
    for (code, payload) in [
        (MsgCode::Data, &b"ab"[..]),
        (MsgCode::Info, &b"note"[..]),
        (MsgCode::Data, &b""[..]),
        (MsgCode::Noop, &b""[..]),
        (MsgCode::Data, &b"cdef"[..]),
    ] {
        input.extend_from_slice(&mux_header(code, payload.len()));
        input.extend_from_slice(payload);
    }
    input.extend_from_slice(&[1, 0, 0, 3]);
    let mut s = make_stream(input);
    s.start_multiplex_in();
    assert_eq!(s.read_data(1).unwrap(), b"a");
    assert_eq!(s.read_data(3).unwrap(), b"bcd");
    assert_eq!(s.read_data(2).unwrap(), b"ef");
    assert_eq!(s.read_data(1), Err(WireError::BadTag));
    let seen = s.take_messages();
    assert_eq!(seen.len(), 2);
    assert_eq!(report_message(&seen[0]).1, "[remote] note");
    assert_eq!(report_message(&seen[1]).1, "unhandled multiplex msg code=Noop len=0");
    assert_eq!(report_mplex_message(&seen[1]).1, "unhandled mplex msg code=Noop len=0");
}

#[test]
fn a_log_message_is_handled_by_one_side_only() {
    let mut input = mux_header(MsgCode::Log, 2).to_vec();
    input.extend_from_slice(b"hi");
    input.extend_from_slice(&mux_header(MsgCode::Data, 1));
    input.push(7);
    let mut s = make_stream(input);
    s.start_multiplex_in();
    assert_eq!(s.read_data(1).unwrap(), [7]);
    let seen = s.take_messages();
    assert_eq!(report_message(&seen[0]).1, "[remote log] hi");
    assert_eq!(report_mplex_message(&seen[0]).1, "unhandled mplex msg code=Log len=2");
}
