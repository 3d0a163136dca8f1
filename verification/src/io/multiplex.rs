//! Frames that carry file data and messages over one connection.
//!
//! Every frame starts with four bytes: the payload length in three, lowest
//! first, and the message code above a base tag in the fourth.

use vstd::prelude::*;

use crate::io::bytes::{le_bytes, lemma_le_bytes_len, put_bytes, ByteReader, WireError};
use crate::log::LogLevel;
use crate::protocol::constants::{msg_code_of, msg_code_round_trip, MsgCode, MPLEX_BASE};
use crate::text::{chars_of, decimal, push_decimal, string_of, text_of, utf8_lossy};

verus! {

/// The longest payload of one frame.
pub const MAX_PAYLOAD: usize = 0xff_ffff;

// ---------------------------------------------------------------------------
// Frames
// ---------------------------------------------------------------------------

/// One frame: its header and its payload.
pub open spec fn frame(code: MsgCode, payload: Seq<u8>) -> Seq<u8> {
    le_bytes(payload.len(), 3) + seq![(MPLEX_BASE + code.code()) as u8] + payload
}

/// Data as one or more frames, all but the last of full length.
pub open spec fn data_frames(data: Seq<u8>) -> Seq<u8>
    decreases data.len(),
{
    if data.len() == 0 {
        Seq::empty()
    } else if data.len() <= MAX_PAYLOAD {
        frame(MsgCode::Data, data)
    } else {
        frame(MsgCode::Data, data.take(MAX_PAYLOAD as int)) + data_frames(
            data.skip(MAX_PAYLOAD as int),
        )
    }
}

/// A message from the peer, without the line ends behind its text.
#[derive(Debug)]
pub struct RemoteMessage {
    pub code: MsgCode,
    pub text: String,
    /// The length of the payload in bytes.
    pub len: usize,
}

/// The model of a message from the peer.
#[verifier::ext_equal]
pub struct Message {
    pub code: MsgCode,
    pub text: Seq<char>,
    pub len: int,
}

impl View for RemoteMessage {
    type V = Message;

    open spec fn view(&self) -> Message {
        Message { code: self.code, text: self.text@, len: self.len as int }
    }
}

/// The models of some messages.
pub open spec fn messages(ms: Seq<RemoteMessage>) -> Seq<Message> {
    Seq::new(ms.len(), |i: int| ms[i]@)
}

/// A text without the line ends behind it.
pub open spec fn trim_line_end(s: Seq<char>) -> Seq<char>
    decreases s.len(),
{
    if s.len() > 0 && (s.last() == '\n' || s.last() == '\r') {
        trim_line_end(s.drop_last())
    } else {
        s
    }
}

/// The message that a frame carries.
pub open spec fn message_of(code: MsgCode, payload: Seq<u8>) -> Message {
    Message { code, text: trim_line_end(text_of(payload)), len: payload.len() as int }
}

/// What a frame header says: the kind of the frame, where it is known, and the
/// length of its payload.  A strict reading refuses a frame of unknown kind.
pub open spec fn dec_header(buf: Seq<u8>, strict: bool) -> Result<(Option<MsgCode>, nat), WireError> {
    if buf.len() < 4 {
        Err(WireError::UnexpectedEof)
    } else {
        let n = (buf[0] + buf[1] * 256 + buf[2] * 0x1_0000) as nat;
        if buf[3] < MPLEX_BASE {
            if strict {
                Err(WireError::BadTag)
            } else {
                Ok((None, n))
            }
        } else {
            match msg_code_of((buf[3] - MPLEX_BASE) as u8) {
                Some(code) => Ok((Some(code), n)),
                None => if strict {
                    Err(WireError::UnknownMessage)
                } else {
                    Ok((None, n))
                },
            }
        }
    }
}

/// Where a reader stands once it has skipped to the next data: how much data
/// the current frame still holds, the messages that came first, and the
/// bytes from the data on.
pub struct AtData {
    pub pending: nat,
    pub seen: Seq<Message>,
    pub rest: Seq<u8>,
}

/// What a frame that carries no data adds to the messages: nothing where its
/// kind is unknown.
pub open spec fn with_message(seen: Seq<Message>, code: Option<MsgCode>, payload: Seq<u8>) -> Seq<
    Message,
> {
    match code {
        Some(c) => seen.push(message_of(c, payload)),
        None => seen,
    }
}

/// Skips messages, empty frames and frames of unknown kind up to the next data.
pub open spec fn next_data(buf: Seq<u8>, strict: bool, seen: Seq<Message>) -> Result<
    AtData,
    WireError,
>
    decreases buf.len(),
{
    match dec_header(buf, strict) {
        Err(e) => Err(e),
        Ok((code, n)) => {
            let body = buf.skip(4);
            if code == Some(MsgCode::Data) {
                if n == 0 {
                    next_data(body, strict, seen)
                } else {
                    Ok(AtData { pending: n, seen, rest: body })
                }
            } else if body.len() < n {
                Err(WireError::UnexpectedEof)
            } else {
                next_data(
                    body.skip(n as int),
                    strict,
                    with_message(seen, code, body.take(n as int)),
                )
            }
        },
    }
}

/// The state of a reader that has read `want` bytes of data.
pub struct DataRead {
    pub data: Seq<u8>,
    pub pending: nat,
    pub seen: Seq<Message>,
    pub rest: Seq<u8>,
}

/// Reads `want` bytes of data through the frames that carry them.
pub open spec fn read_frames(
    buf: Seq<u8>,
    pending: nat,
    want: nat,
    data: Seq<u8>,
    seen: Seq<Message>,
) -> Result<DataRead, WireError>
    decreases buf.len(),
{
    if want == 0 {
        Ok(DataRead { data, pending, seen, rest: buf })
    } else if pending == 0 {
        match next_data(buf, true, seen) {
            Err(e) => Err(e),
            Ok(at) => if at.rest.len() < buf.len() {
                read_frames(at.rest, at.pending, want, data, at.seen)
            } else {
                Err(WireError::UnexpectedEof)
            },
        }
    } else {
        let n = if want < pending {
            want
        } else {
            pending
        };
        if buf.len() < n {
            Err(WireError::UnexpectedEof)
        } else {
            read_frames(
                buf.skip(n as int),
                (pending - n) as nat,
                (want - n) as nat,
                data + buf.take(n as int),
                seen,
            )
        }
    }
}

/// A frame header that was written is read back, in either reading.
pub proof fn header_round_trip(code: MsgCode, payload: Seq<u8>, tail: Seq<u8>, strict: bool)
    requires
        payload.len() <= MAX_PAYLOAD,
    ensures
        dec_header(frame(code, payload) + tail, strict) == Ok::<(Option<MsgCode>, nat), WireError>(
            (Some(code), payload.len()),
        ),
        (frame(code, payload) + tail).skip(4) == payload + tail,
        frame(code, payload).len() == payload.len() + 4,
{
    let n = payload.len();
    let buf = frame(code, payload) + tail;
    lemma_le_bytes_len(n, 3);
    reveal_with_fuel(le_bytes, 4);
    assert(le_bytes(n, 3) =~= seq![
        (n % 256) as u8,
        (n / 256 % 256) as u8,
        (n / 256 / 256 % 256) as u8,
    ]);
    assert(buf[0] == (n % 256) as u8);
    assert(buf[1] == (n / 256 % 256) as u8);
    assert(buf[2] == (n / 256 / 256 % 256) as u8);
    assert(buf[3] == (MPLEX_BASE + code.code()) as u8);
    assert(n == n % 256 + (n / 256 % 256) * 256 + (n / 256 / 256 % 256) * 0x1_0000);
    msg_code_round_trip(code, 0);
    assert(buf.skip(4) =~= payload + tail);
}

/// A message in front of data is reported and does not disturb the data.
pub proof fn message_before_data(
    code: MsgCode,
    payload: Seq<u8>,
    tail: Seq<u8>,
    strict: bool,
    seen: Seq<Message>,
)
    requires
        code != MsgCode::Data,
        payload.len() <= MAX_PAYLOAD,
    ensures
        next_data(frame(code, payload) + tail, strict, seen) == next_data(
            tail,
            strict,
            seen.push(message_of(code, payload)),
        ),
{
    header_round_trip(code, payload, tail, strict);
    let body = (frame(code, payload) + tail).skip(4);
    assert(body.take(payload.len() as int) =~= payload);
    assert(body.skip(payload.len() as int) =~= tail);
}

/// Data that was written in frames is read back through them, whole, and
/// nothing behind the frames is touched.
pub proof fn data_round_trip(data: Seq<u8>, tail: Seq<u8>, got: Seq<u8>, seen: Seq<Message>)
    ensures
        read_frames(data_frames(data) + tail, 0, data.len(), got, seen) == Ok::<
            DataRead,
            WireError,
        >(DataRead { data: got + data, pending: 0, seen, rest: tail }),
    decreases data.len(),
{
    let buf = data_frames(data) + tail;
    if data.len() == 0 {
        assert(buf =~= tail);
        assert(got + data =~= got);
    } else {
        let first = if data.len() <= MAX_PAYLOAD {
            data
        } else {
            data.take(MAX_PAYLOAD as int)
        };
        let more = if data.len() <= MAX_PAYLOAD {
            Seq::<u8>::empty()
        } else {
            data.skip(MAX_PAYLOAD as int)
        };
        let after = data_frames(more) + tail;
        assert(buf =~= frame(MsgCode::Data, first) + after);
        header_round_trip(MsgCode::Data, first, after, true);
        let body = first + after;
        assert(body.take(first.len() as int) =~= first);
        assert(body.skip(first.len() as int) =~= after);
        data_round_trip(more, tail, got + first, seen);
        assert(got + first + more =~= got + data);
        reveal_with_fuel(read_frames, 3);
    }
}

/// Frames of any kinds on the wire.
pub open spec fn frames_bytes(fs: Seq<(MsgCode, Seq<u8>)>) -> Seq<u8>
    decreases fs.len(),
{
    if fs.len() == 0 {
        Seq::empty()
    } else {
        frame(fs[0].0, fs[0].1) + frames_bytes(fs.skip(1))
    }
}

/// The data that some frames carry, in order.
pub open spec fn frames_data(fs: Seq<(MsgCode, Seq<u8>)>) -> Seq<u8>
    decreases fs.len(),
{
    if fs.len() == 0 {
        Seq::empty()
    } else if fs[0].0 == MsgCode::Data {
        fs[0].1 + frames_data(fs.skip(1))
    } else {
        frames_data(fs.skip(1))
    }
}

/// Whether the payloads of some frames fit their headers.
pub open spec fn frames_fit(fs: Seq<(MsgCode, Seq<u8>)>) -> bool {
    forall|i: int| 0 <= i < fs.len() ==> (#[trigger] fs[i]).1.len() <= MAX_PAYLOAD
}

/// Whether a reader stands `part` bytes of data before the end of a frame,
/// with the frames `fs` behind it, and then `tail`.
pub open spec fn stands_at(
    r: DataRead,
    part: Seq<u8>,
    fs: Seq<(MsgCode, Seq<u8>)>,
    tail: Seq<u8>,
) -> bool {
    &&& frames_fit(fs)
    &&& r.pending == part.len()
    &&& r.rest == part + frames_bytes(fs) + tail
}

/// The first frame with data among some frames: its data, the frames behind
/// it, and the messages up to it.
proof fn lemma_next_data(fs: Seq<(MsgCode, Seq<u8>)>, tail: Seq<u8>, seen: Seq<Message>) -> (res: (
    Seq<u8>,
    Seq<(MsgCode, Seq<u8>)>,
    Seq<Message>,
))
    requires
        frames_fit(fs),
        frames_data(fs).len() > 0,
    ensures
        res.0.len() > 0,
        res.1.len() < fs.len(),
        frames_fit(res.1),
        frames_data(fs) == res.0 + frames_data(res.1),
        next_data(frames_bytes(fs) + tail, true, seen) == Ok::<AtData, WireError>(
            AtData {
                pending: res.0.len(),
                seen: res.2,
                rest: res.0 + frames_bytes(res.1) + tail,
            },
        ),
        (res.0 + frames_bytes(res.1) + tail).len() < (frames_bytes(fs) + tail).len(),
    decreases fs.len(),
{
    let (code, payload) = fs[0];
    let more = fs.skip(1);
    let after = frames_bytes(more) + tail;
    assert(frames_bytes(fs) + tail =~= frame(code, payload) + after);
    header_round_trip(code, payload, after, true);
    assert(frames_fit(more)) by {
        assert forall|i: int| 0 <= i < more.len() implies (#[trigger] more[i]).1.len()
            <= MAX_PAYLOAD by {
            assert(more[i] == fs[i + 1]);
        }
    }
    if code == MsgCode::Data && payload.len() > 0 {
        assert(payload + frames_bytes(more) + tail =~= payload + after);
        (payload, more, seen)
    } else if code == MsgCode::Data {
        assert(payload + after =~= after);
        assert(frames_data(fs) =~= frames_data(more));
        lemma_next_data(more, tail, seen)
    } else {
        message_before_data(code, payload, after, true, seen);
        lemma_next_data(more, tail, seen.push(message_of(code, payload)))
    }
}

/// However data is cut into frames, and whatever messages lie between them,
/// as many bytes as there are can be read, in order; and the reader then
/// stands where the next read goes on with the bytes behind them.
pub proof fn any_cut_is_read(
    part: Seq<u8>,
    fs: Seq<(MsgCode, Seq<u8>)>,
    tail: Seq<u8>,
    want: nat,
    got: Seq<u8>,
    seen: Seq<Message>,
)
    requires
        frames_fit(fs),
        want <= (part + frames_data(fs)).len(),
    ensures
        read_frames(part + frames_bytes(fs) + tail, part.len(), want, got, seen) matches Ok(r)
            && r.data == got + (part + frames_data(fs)).take(want as int) && exists|
            part2: Seq<u8>,
            fs2: Seq<(MsgCode, Seq<u8>)>,
        | #[trigger]
            stands_at(r, part2, fs2, tail) && (part + frames_data(fs)).skip(want as int) == part2
                + frames_data(fs2),
    decreases fs.len(), part.len(),
{
    let buf = part + frames_bytes(fs) + tail;
    let data = part + frames_data(fs);
    if want == 0 {
        let r = DataRead { data: got, pending: part.len(), seen, rest: buf };
        assert(got + data.take(0) =~= got);
        assert(stands_at(r, part, fs, tail));
        assert(data.skip(0) =~= data);
    } else if part.len() == 0 {
        assert(data =~= frames_data(fs));
        let (first, more, seen2) = lemma_next_data(fs, tail, seen);
        assert(buf =~= frames_bytes(fs) + tail);
        any_cut_is_read(first, more, tail, want, got, seen2);
    } else if want <= part.len() {
        let left = part.skip(want as int);
        let rest = left + frames_bytes(fs) + tail;
        assert(buf.skip(want as int) =~= rest);
        assert(buf.take(want as int) =~= part.take(want as int));
        let r = DataRead {
            data: got + part.take(want as int),
            pending: left.len(),
            seen,
            rest,
        };
        reveal_with_fuel(read_frames, 2);
        assert(data.take(want as int) =~= part.take(want as int));
        assert(data.skip(want as int) =~= left + frames_data(fs));
        assert(stands_at(r, left, fs, tail));
    } else {
        let n = part.len();
        let none = Seq::<u8>::empty();
        let rest = none + frames_bytes(fs) + tail;
        assert(buf.skip(n as int) =~= rest);
        assert(buf.take(n as int) =~= part);
        assert(none + frames_data(fs) =~= frames_data(fs));
        any_cut_is_read(none, fs, tail, (want - n) as nat, got + part, seen);
        let behind = frames_data(fs);
        assert(got + part + behind.take(want - n) =~= got + data.take(want as int));
        assert(data.skip(want as int) =~= behind.skip(want - n));
    }
}

proof fn lemma_no_data(fs: Seq<(MsgCode, Seq<u8>)>, tail: Seq<u8>, seen: Seq<Message>, e: WireError)
    requires
        frames_fit(fs),
        frames_data(fs).len() == 0,
        dec_header(tail, true) == Err::<(Option<MsgCode>, nat), WireError>(e),
    ensures
        next_data(frames_bytes(fs) + tail, true, seen) == Err::<AtData, WireError>(e),
    decreases fs.len(),
{
    if fs.len() == 0 {
        assert(frames_bytes(fs) + tail =~= tail);
    } else {
        let (code, payload) = fs[0];
        let more = fs.skip(1);
        let after = frames_bytes(more) + tail;
        assert(frames_bytes(fs) + tail =~= frame(code, payload) + after);
        header_round_trip(code, payload, after, true);
        assert(frames_fit(more)) by {
            assert forall|i: int| 0 <= i < more.len() implies (#[trigger] more[i]).1.len()
                <= MAX_PAYLOAD by {
                assert(more[i] == fs[i + 1]);
            }
        }
        if code == MsgCode::Data {
            assert(payload + after =~= after);
            lemma_no_data(more, tail, seen, e);
        } else {
            message_before_data(code, payload, after, true, seen);
            lemma_no_data(more, tail, seen.push(message_of(code, payload)), e);
        }
    }
}

/// A read that reaches a header that cannot be read fails as that header does.
pub proof fn bad_header_stops(
    part: Seq<u8>,
    fs: Seq<(MsgCode, Seq<u8>)>,
    tail: Seq<u8>,
    want: nat,
    got: Seq<u8>,
    seen: Seq<Message>,
)
    requires
        frames_fit(fs),
        want > (part + frames_data(fs)).len(),
        dec_header(tail, true) is Err,
    ensures
        read_frames(part + frames_bytes(fs) + tail, part.len(), want, got, seen) == Err::<
            DataRead,
            WireError,
        >(dec_header(tail, true)->Err_0),
    decreases fs.len(), part.len(),
{
    let buf = part + frames_bytes(fs) + tail;
    let e = dec_header(tail, true)->Err_0;
    if part.len() == 0 {
        assert(buf =~= frames_bytes(fs) + tail);
        if frames_data(fs).len() == 0 {
            lemma_no_data(fs, tail, seen, e);
        } else {
            let (first, more, seen2) = lemma_next_data(fs, tail, seen);
            bad_header_stops(first, more, tail, want, got, seen2);
        }
    } else {
        let n = part.len();
        let none = Seq::<u8>::empty();
        assert(buf.skip(n as int) =~= none + frames_bytes(fs) + tail);
        assert(buf.take(n as int) =~= part);
        bad_header_stops(none, fs, tail, (want - n) as nat, got + part, seen);
    }
}

// ---------------------------------------------------------------------------
// Writing frames
// ---------------------------------------------------------------------------

fn put_frame(w: &mut Vec<u8>, code: MsgCode, data: &[u8])
    requires
        data@.len() <= MAX_PAYLOAD,
    ensures
        final(w)@ == old(w)@ + frame(code, data@),
{
    let n: usize = data.len();
    w.push((n % 256) as u8);
    w.push((n / 256 % 256) as u8);
    w.push((n / 256 / 256 % 256) as u8);
    w.push(MPLEX_BASE + code.as_u8());
    put_bytes(w, data);
    proof {
        reveal_with_fuel(le_bytes, 4);
    }
    assert(w@ =~= old(w)@ + frame(code, data@));
}

fn put_data(w: &mut Vec<u8>, data: &[u8])
    ensures
        final(w)@ == old(w)@ + data_frames(data@),
{
    let ghost start = w@;
    let mut rest: &[u8] = data;
    assert(w@ + data_frames(rest@) =~= start + data_frames(data@));
    while rest.len() > 0
        invariant
            w@ + data_frames(rest@) == start + data_frames(data@),
        decreases rest@.len(),
    {
        let ghost before = w@;
        let ghost left = rest@;
        if rest.len() <= MAX_PAYLOAD {
            put_frame(w, MsgCode::Data, rest);
            rest = rest.split_at(rest.len()).1;
            assert(rest@ =~= Seq::<u8>::empty());
            assert(w@ + data_frames(rest@) =~= before + data_frames(left));
        } else {
            let parts: (&[u8], &[u8]) = rest.split_at(MAX_PAYLOAD);
            put_frame(w, MsgCode::Data, parts.0);
            rest = parts.1;
            assert(parts.0@ =~= left.take(MAX_PAYLOAD as int));
            assert(parts.1@ =~= left.skip(MAX_PAYLOAD as int));
            assert(w@ + data_frames(rest@) =~= before + data_frames(left));
        }
    }
    assert(w@ =~= w@ + data_frames(rest@));
}

// ---------------------------------------------------------------------------
// Reading frames
// ---------------------------------------------------------------------------

fn read_header(r: &mut ByteReader, strict: bool) -> (res: Result<
    (Option<MsgCode>, usize),
    WireError,
>)
    ensures
        match res {
            Ok((code, n)) => dec_header(old(r)@, strict) == Ok::<(Option<MsgCode>, nat), WireError>(
                (code, n as nat),
            ) && final(r)@ == old(r)@.skip(4) && old(r)@.len() >= 4 && n <= MAX_PAYLOAD,
            Err(e) => dec_header(old(r)@, strict) == Err::<(Option<MsgCode>, nat), WireError>(e),
        },
        forall|q: nat| #[trigger] final(r).at(q) == old(r).at(q),
{
    let b: Vec<u8> = match r.take_bytes(4) {
        Err(e) => return Err(e),
        Ok(b) => b,
    };
    let n: usize = b[0] as usize + b[1] as usize * 256 + b[2] as usize * 0x1_0000;
    if b[3] < MPLEX_BASE {
        return if strict {
            Err(WireError::BadTag)
        } else {
            Ok((None, n))
        };
    }
    match MsgCode::from_u8(b[3] - MPLEX_BASE) {
        Some(code) => Ok((Some(code), n)),
        None => if strict {
            Err(WireError::UnknownMessage)
        } else {
            Ok((None, n))
        },
    }
}

/// The text of a payload without the line ends behind it.
fn payload_text(payload: &[u8]) -> (s: String)
    ensures
        s@ == trim_line_end(text_of(payload@)),
{
    let text: String = utf8_lossy(payload);
    let chars: Vec<char> = chars_of(text.as_str());
    let mut n: usize = chars.len();
    assert(chars@.take(n as int) =~= chars@);
    while n > 0 && (chars[n - 1] == '\n' || chars[n - 1] == '\r')
        invariant
            n <= chars@.len(),
            chars@ == text_of(payload@),
            trim_line_end(chars@.take(n as int)) == trim_line_end(chars@),
        decreases n,
    {
        assert(chars@.take(n as int).drop_last() =~= chars@.take(n - 1));
        n = n - 1;
    }
    let s: String = string_of(chars.as_slice().split_at(n).0);
    assert(s@ =~= chars@.take(n as int));
    s
}

/// Skips messages, empty frames and frames of unknown kind up to the next data.
fn skip_to_data(r: &mut ByteReader, strict: bool, seen: &mut Vec<RemoteMessage>) -> (res: Result<
    usize,
    WireError,
>)
    ensures
        match res {
            Ok(n) => {
                &&& next_data(old(r)@, strict, messages(old(seen)@)) matches Ok(at)
                &&& at.pending == n
                &&& n > 0
                &&& at.seen == messages(final(seen)@)
                &&& at.rest == final(r)@
                &&& final(r)@.len() < old(r)@.len()
            },
            Err(e) => next_data(old(r)@, strict, messages(old(seen)@)) == Err::<AtData, WireError>(
                e,
            ),
        },
        final(seen)@.len() >= old(seen)@.len(),
        final(seen)@.take(old(seen)@.len() as int) == old(seen)@,
        forall|q: nat| #[trigger] final(r).at(q) == old(r).at(q),
{
    let ghost want = next_data(old(r)@, strict, messages(old(seen)@));
    assert(seen@.take(old(seen)@.len() as int) =~= old(seen)@);
    loop
        invariant
            want == next_data(old(r)@, strict, messages(old(seen)@)),
            next_data(r@, strict, messages(seen@)) == want,
            r@.len() <= old(r)@.len(),
            seen@.len() >= old(seen)@.len(),
            seen@.take(old(seen)@.len() as int) == old(seen)@,
            forall|q: nat| #[trigger] r.at(q) == old(r).at(q),
        decreases r@.len(),
    {
        let (code, n): (Option<MsgCode>, usize) = match read_header(r, strict) {
            Err(e) => return Err(e),
            Ok(h) => h,
        };
        match code {
            Some(MsgCode::Data) => {
                if n > 0 {
                    return Ok(n);
                }
            },
            _ => {
                let payload: Vec<u8> = match r.take_bytes(n) {
                    Err(e) => return Err(e),
                    Ok(b) => b,
                };
                let ghost before = seen@;
                match code {
                    Some(c) => {
                        let text: String = payload_text(payload.as_slice());
                        let m: RemoteMessage = RemoteMessage { code: c, text, len: n };
                        seen.push(m);
                    },
                    None => {},
                }
                assert(messages(seen@) =~= with_message(messages(before), code, payload@));
                assert(seen@.take(old(seen)@.len() as int) =~= before.take(
                    old(seen)@.len() as int,
                ));
            },
        }
    }
}

// ---------------------------------------------------------------------------
// The bidirectional stream
// ---------------------------------------------------------------------------

/// Both directions of a connection.  Bytes pass through unchanged until a
/// direction is switched to frames.
#[derive(Debug)]
pub struct MultiplexStream {
    reader: ByteReader,
    writer: Vec<u8>,
    multiplex_in: bool,
    multiplex_out: bool,
    pending_data: usize,
    messages: Vec<RemoteMessage>,
}

impl MultiplexStream {
    /// The bytes that have not been read yet.
    pub closed spec fn input(&self) -> Seq<u8> {
        self.reader@
    }

    /// The bytes that have been written so far.
    pub closed spec fn output(&self) -> Seq<u8> {
        self.writer@
    }

    /// Whether incoming bytes come in frames.
    pub closed spec fn framed_in(&self) -> bool {
        self.multiplex_in
    }

    /// Whether outgoing bytes go out in frames.
    pub closed spec fn framed_out(&self) -> bool {
        self.multiplex_out
    }

    /// How much data the current incoming frame still holds.
    pub closed spec fn pending(&self) -> nat {
        self.pending_data as nat
    }

    /// The messages that came in so far.
    pub closed spec fn received(&self) -> Seq<Message> {
        messages(self.messages@)
    }

    /// A connection over the bytes `reader` that has written `writer`.
    pub fn new(reader: ByteReader, writer: Vec<u8>) -> (s: MultiplexStream)
        ensures
            s.input() == reader@,
            s.output() == writer@,
            !s.framed_in(),
            !s.framed_out(),
            s.pending() == 0,
            s.received() == Seq::<Message>::empty(),
    {
        let s = MultiplexStream {
            reader,
            writer,
            multiplex_in: false,
            multiplex_out: false,
            pending_data: 0,
            messages: Vec::new(),
        };
        assert(messages(s.messages@) =~= Seq::<Message>::empty());
        s
    }

    /// From now on incoming bytes come in frames.
    pub fn start_multiplex_in(&mut self)
        ensures
            final(self).framed_in(),
            final(self).framed_out() == old(self).framed_out(),
            final(self).input() == old(self).input(),
            final(self).output() == old(self).output(),
            final(self).pending() == old(self).pending(),
            final(self).received() == old(self).received(),
    {
        self.multiplex_in = true;
    }

    /// From now on outgoing bytes go out in frames.
    pub fn start_multiplex_out(&mut self)
        ensures
            final(self).framed_out(),
            final(self).framed_in() == old(self).framed_in(),
            final(self).input() == old(self).input(),
            final(self).output() == old(self).output(),
            final(self).pending() == old(self).pending(),
            final(self).received() == old(self).received(),
    {
        self.multiplex_out = true;
    }

    /// Reads `n` bytes as they stand on the wire.
    pub fn read_exact(&mut self, n: usize) -> (res: Result<Vec<u8>, WireError>)
        ensures
            match res {
                Ok(v) => n <= old(self).input().len() && v@ == old(self).input().take(n as int)
                    && final(self).input() == old(self).input().skip(n as int),
                Err(e) => e == WireError::UnexpectedEof && old(self).input().len() < n
                    && final(self).input() == old(self).input(),
            },
            final(self).output() == old(self).output(),
            final(self).framed_in() == old(self).framed_in(),
            final(self).framed_out() == old(self).framed_out(),
            final(self).pending() == old(self).pending(),
            final(self).received() == old(self).received(),
    {
        self.reader.take_bytes(n)
    }

    /// Writes bytes as they stand.
    pub fn write_all(&mut self, data: &[u8])
        ensures
            final(self).output() == old(self).output() + data@,
            final(self).input() == old(self).input(),
            final(self).framed_in() == old(self).framed_in(),
            final(self).framed_out() == old(self).framed_out(),
            final(self).pending() == old(self).pending(),
            final(self).received() == old(self).received(),
    {
        put_bytes(&mut self.writer, data);
    }

    /// Reads `n` bytes of data, out of frames where the input comes in them.
    /// Messages between the frames are kept for `take_messages`.
    pub fn read_data(&mut self, n: usize) -> (res: Result<Vec<u8>, WireError>)
        ensures
            old(self).framed_in() ==> ({
                let r = read_frames(
                    old(self).input(),
                    old(self).pending(),
                    n as nat,
                    Seq::empty(),
                    old(self).received(),
                );
                match res {
                    Ok(v) => r == Ok::<DataRead, WireError>(
                        DataRead {
                            data: v@,
                            pending: final(self).pending(),
                            seen: final(self).received(),
                            rest: final(self).input(),
                        },
                    ),
                    Err(e) => r == Err::<DataRead, WireError>(e) && final(self).input() == old(self).input() && final(self).pending() == old(self).pending()
                        && final(self).received() == old(self).received(),
                }
            }),
            !old(self).framed_in() ==> match res {
                Ok(v) => n <= old(self).input().len() && v@ == old(self).input().take(n as int)
                    && final(self).input() == old(self).input().skip(n as int),
                Err(e) => e == WireError::UnexpectedEof && old(self).input().len() < n
                    && final(self).input() == old(self).input(),
            },
            !old(self).framed_in() ==> final(self).pending() == old(self).pending() && final(self).received() == old(self).received(),
            final(self).output() == old(self).output(),
            final(self).framed_in() == old(self).framed_in(),
            final(self).framed_out() == old(self).framed_out(),
    {
        if !self.multiplex_in {
            return self.reader.take_bytes(n);
        }
        let start: usize = self.reader.position();
        let known: usize = self.messages.len();
        let before: usize = self.pending_data;
        match self.read_framed(n) {
            Err(e) => {
                self.reader.seek(start);
                self.messages.truncate(known);
                self.pending_data = before;
                assert(messages(self.messages@) =~= messages(old(self).messages@));
                Err(e)
            },
            Ok(v) => Ok(v),
        }
    }

    fn read_framed(&mut self, n: usize) -> (res: Result<Vec<u8>, WireError>)
        ensures
            ({
                let r = read_frames(
                    old(self).reader@,
                    old(self).pending_data as nat,
                    n as nat,
                    Seq::empty(),
                    messages(old(self).messages@),
                );
                match res {
                    Ok(v) => r == Ok::<DataRead, WireError>(
                        DataRead {
                            data: v@,
                            pending: final(self).pending_data as nat,
                            seen: messages(final(self).messages@),
                            rest: final(self).reader@,
                        },
                    ),
                    Err(e) => r == Err::<DataRead, WireError>(e),
                }
            }),
            forall|q: nat| #[trigger] final(self).reader.at(q) == old(self).reader.at(q),
            final(self).messages@.len() >= old(self).messages@.len(),
            final(self).messages@.take(old(self).messages@.len() as int) == old(self).messages@,
            final(self).writer == old(self).writer,
            final(self).framed_in() == old(self).framed_in(),
            final(self).framed_out() == old(self).framed_out(),
    {
        let ghost want = read_frames(
            self.reader@,
            self.pending_data as nat,
            n as nat,
            Seq::empty(),
            messages(self.messages@),
        );
        let mut data: Vec<u8> = Vec::new();
        assert(self.messages@.take(old(self).messages@.len() as int) =~= old(self).messages@);
        while data.len() < n
            invariant
                data@.len() <= n,
                read_frames(
                    self.reader@,
                    self.pending_data as nat,
                    (n - data@.len()) as nat,
                    data@,
                    messages(self.messages@),
                ) == want,
                forall|q: nat| #[trigger] self.reader.at(q) == old(self).reader.at(q),
                self.messages@.len() >= old(self).messages@.len(),
                self.messages@.take(old(self).messages@.len() as int) == old(self).messages@,
                self.writer == old(self).writer,
                self.multiplex_in == old(self).framed_in(),
                self.multiplex_out == old(self).framed_out(),
                want == read_frames(
                    old(self).reader@,
                    old(self).pending_data as nat,
                    n as nat,
                    Seq::empty(),
                    messages(old(self).messages@),
                ),
            decreases self.reader@.len(),
        {
            if self.pending_data == 0 {
                let ghost known = self.messages@;
                match skip_to_data(&mut self.reader, true, &mut self.messages) {
                    Err(e) => return Err(e),
                    Ok(k) => {
                        self.pending_data = k;
                    },
                }
                assert(self.messages@.take(old(self).messages@.len() as int)
                    =~= self.messages@.take(known.len() as int).take(
                    old(self).messages@.len() as int,
                ));
            } else {
                let left: usize = n - data.len();
                let k: usize = if left < self.pending_data {
                    left
                } else {
                    self.pending_data
                };
                match self.reader.take_bytes(k) {
                    Err(e) => return Err(e),
                    Ok(b) => {
                        put_bytes(&mut data, b.as_slice());
                    },
                }
                self.pending_data = self.pending_data - k;
            }
        }
        Ok(data)
    }

    /// Writes data, in frames where the output goes out in them.
    pub fn write_data(&mut self, data: &[u8])
        ensures
            final(self).output() == old(self).output() + if old(self).framed_out() {
                data_frames(data@)
            } else {
                data@
            },
            final(self).input() == old(self).input(),
            final(self).framed_in() == old(self).framed_in(),
            final(self).framed_out() == old(self).framed_out(),
            final(self).pending() == old(self).pending(),
            final(self).received() == old(self).received(),
    {
        if self.multiplex_out {
            put_data(&mut self.writer, data);
        } else {
            put_bytes(&mut self.writer, data);
        }
    }

    /// Writes a message, unless it is too long for one frame.
    pub fn write_msg(&mut self, code: MsgCode, data: &[u8]) -> (res: Result<(), WireError>)
        ensures
            match res {
                Ok(_) => data@.len() <= MAX_PAYLOAD && final(self).output() == old(self).output()
                    + frame(code, data@),
                Err(e) => e == WireError::MessageTooLong && data@.len() > MAX_PAYLOAD && final(self).output() == old(self).output(),
            },
            final(self).input() == old(self).input(),
            final(self).framed_in() == old(self).framed_in(),
            final(self).framed_out() == old(self).framed_out(),
            final(self).pending() == old(self).pending(),
            final(self).received() == old(self).received(),
    {
        if data.len() > MAX_PAYLOAD {
            return Err(WireError::MessageTooLong);
        }
        put_frame(&mut self.writer, code, data);
        Ok(())
    }

    /// Hands out the bytes written so far, for the connection to send.
    pub fn flush(&mut self) -> (out: Vec<u8>)
        ensures
            out@ == old(self).output(),
            final(self).output() == Seq::<u8>::empty(),
            final(self).input() == old(self).input(),
            final(self).framed_in() == old(self).framed_in(),
            final(self).framed_out() == old(self).framed_out(),
            final(self).pending() == old(self).pending(),
            final(self).received() == old(self).received(),
    {
        let mut out: Vec<u8> = Vec::new();
        out.append(&mut self.writer);
        assert(out@ =~= old(self).writer@);
        out
    }

    /// Hands out the messages that came in so far.
    pub fn take_messages(&mut self) -> (out: Vec<RemoteMessage>)
        ensures
            messages(out@) == old(self).received(),
            final(self).received() == Seq::<Message>::empty(),
            final(self).input() == old(self).input(),
            final(self).output() == old(self).output(),
            final(self).framed_in() == old(self).framed_in(),
            final(self).framed_out() == old(self).framed_out(),
            final(self).pending() == old(self).pending(),
    {
        let mut out: Vec<RemoteMessage> = Vec::new();
        out.append(&mut self.messages);
        assert(messages(out@) =~= messages(old(self).messages@));
        assert(messages(self.messages@) =~= Seq::<Message>::empty());
        out
    }

    /// Adds bytes that came in from the connection.
    pub fn feed(&mut self, more: &[u8])
        ensures
            final(self).input() == old(self).input() + more@,
            final(self).output() == old(self).output(),
            final(self).framed_in() == old(self).framed_in(),
            final(self).framed_out() == old(self).framed_out(),
            final(self).pending() == old(self).pending(),
            final(self).received() == old(self).received(),
    {
        self.reader.extend(more);
    }
}

// ---------------------------------------------------------------------------
// One direction at a time
// ---------------------------------------------------------------------------

/// An output that can be switched to frames.
#[derive(Debug)]
pub struct MplexWriter {
    inner: Vec<u8>,
    enabled: bool,
}

impl MplexWriter {
    /// The bytes that go out.
    pub closed spec fn output(&self) -> Seq<u8> {
        self.inner@
    }

    /// Whether output goes out in frames.
    pub closed spec fn framed(&self) -> bool {
        self.enabled
    }

    /// An output behind the bytes `inner`, not in frames yet.
    pub fn new(inner: Vec<u8>) -> (w: MplexWriter)
        ensures
            w.output() == inner@,
            !w.framed(),
    {
        MplexWriter { inner, enabled: false }
    }

    /// From now on output goes out in frames.
    pub fn enable(&mut self)
        ensures
            final(self).framed(),
            final(self).output() == old(self).output(),
    {
        self.enabled = true;
    }

    pub fn is_enabled(&self) -> (b: bool)
        ensures
            b == self.framed(),
    {
        self.enabled
    }

    /// Writes a message frame.
    pub fn write_msg(&mut self, code: MsgCode, data: &[u8])
        requires
            data@.len() <= MAX_PAYLOAD,
        ensures
            final(self).output() == old(self).output() + frame(code, data@),
            final(self).framed() == old(self).framed(),
    {
        put_frame(&mut self.inner, code, data);
    }

    /// Writes as much data as one frame holds and says how much that was.
    pub fn write(&mut self, data: &[u8]) -> (n: usize)
        ensures
            n == if old(self).framed() && data@.len() > MAX_PAYLOAD {
                MAX_PAYLOAD as int
            } else {
                data@.len() as int
            },
            final(self).output() == old(self).output() + if old(self).framed() {
                frame(MsgCode::Data, data@.take(n as int))
            } else {
                data@
            },
            final(self).framed() == old(self).framed(),
    {
        if !self.enabled {
            put_bytes(&mut self.inner, data);
            return data.len();
        }
        let n: usize = if data.len() > MAX_PAYLOAD {
            MAX_PAYLOAD
        } else {
            data.len()
        };
        let part: &[u8] = data.split_at(n).0;
        assert(part@ =~= data@.take(n as int));
        put_frame(&mut self.inner, MsgCode::Data, part);
        n
    }

    /// Writes all the data, in as many frames as it takes.
    pub fn write_all(&mut self, data: &[u8])
        ensures
            final(self).output() == old(self).output() + if old(self).framed() {
                data_frames(data@)
            } else {
                data@
            },
            final(self).framed() == old(self).framed(),
    {
        if self.enabled {
            put_data(&mut self.inner, data);
        } else {
            put_bytes(&mut self.inner, data);
        }
    }

    /// Hands out the bytes written so far, for the connection to send.
    pub fn flush(&mut self) -> (out: Vec<u8>)
        ensures
            out@ == old(self).output(),
            final(self).output() == Seq::<u8>::empty(),
            final(self).framed() == old(self).framed(),
    {
        let mut out: Vec<u8> = Vec::new();
        out.append(&mut self.inner);
        assert(out@ =~= old(self).inner@);
        out
    }
}

/// An input that can be switched to frames.
#[derive(Debug)]
pub struct MplexReader {
    inner: ByteReader,
    enabled: bool,
    pending: usize,
    messages: Vec<RemoteMessage>,
}

/// What one read of at most `max` bytes gives.
pub open spec fn read_some(buf: Seq<u8>, pending: nat, max: nat, seen: Seq<Message>) -> Result<
    DataRead,
    WireError,
> {
    let at = if pending == 0 {
        next_data(buf, false, seen)
    } else {
        Ok(AtData { pending, seen, rest: buf })
    };
    match at {
        Err(e) => Err(e),
        Ok(at) => {
            let n = at_most(max, at_most(at.pending, at.rest.len()));
            Ok(
                DataRead {
                    data: at.rest.take(n as int),
                    pending: (at.pending - n) as nat,
                    seen: at.seen,
                    rest: at.rest.skip(n as int),
                },
            )
        },
    }
}

/// The smaller of two numbers.
pub open spec fn at_most(a: nat, b: nat) -> nat {
    if a < b {
        a
    } else {
        b
    }
}

impl MplexReader {
    /// The bytes that have not been read yet.
    pub closed spec fn input(&self) -> Seq<u8> {
        self.inner@
    }

    /// Whether input comes in frames.
    pub closed spec fn framed(&self) -> bool {
        self.enabled
    }

    /// How much data the current frame still holds.
    pub closed spec fn left(&self) -> nat {
        self.pending as nat
    }

    /// The messages that came in so far.
    pub closed spec fn received(&self) -> Seq<Message> {
        messages(self.messages@)
    }

    /// An input over the bytes `inner`, not in frames yet.
    pub fn new(inner: ByteReader) -> (r: MplexReader)
        ensures
            r.input() == inner@,
            !r.framed(),
            r.left() == 0,
            r.received() == Seq::<Message>::empty(),
    {
        let r = MplexReader { inner, enabled: false, pending: 0, messages: Vec::new() };
        assert(messages(r.messages@) =~= Seq::<Message>::empty());
        r
    }

    /// From now on input comes in frames.
    pub fn enable(&mut self)
        ensures
            final(self).framed(),
            final(self).input() == old(self).input(),
            final(self).left() == old(self).left(),
            final(self).received() == old(self).received(),
    {
        self.enabled = true;
    }

    pub fn is_enabled(&self) -> (b: bool)
        ensures
            b == self.framed(),
    {
        self.enabled
    }

    /// Adds bytes that came in from the connection.
    pub fn feed(&mut self, more: &[u8])
        ensures
            final(self).input() == old(self).input() + more@,
            final(self).framed() == old(self).framed(),
            final(self).left() == old(self).left(),
            final(self).received() == old(self).received(),
    {
        self.inner.extend(more);
    }

    /// Reads at most `max` bytes of data.  Messages and empty frames on the way
    /// are taken in; a frame of unknown kind is passed over.
    pub fn read(&mut self, max: usize) -> (res: Result<Vec<u8>, WireError>)
        ensures
            old(self).framed() ==> ({
                let r = read_some(
                    old(self).input(),
                    old(self).left(),
                    max as nat,
                    old(self).received(),
                );
                match res {
                    Ok(v) => r == Ok::<DataRead, WireError>(
                        DataRead {
                            data: v@,
                            pending: final(self).left(),
                            seen: final(self).received(),
                            rest: final(self).input(),
                        },
                    ),
                    Err(e) => r == Err::<DataRead, WireError>(e) && final(self).input() == old(self).input() && final(self).left() == old(self).left() && final(self).received()
                        == old(self).received(),
                }
            }),
            !old(self).framed() ==> ({
                let n = at_most(max as nat, old(self).input().len());
                &&& res matches Ok(v) && v@ == old(self).input().take(n as int)
                &&& final(self).input() == old(self).input().skip(n as int)
                &&& final(self).left() == old(self).left()
                &&& final(self).received() == old(self).received()
            }),
            final(self).framed() == old(self).framed(),
    {
        if self.enabled && self.pending == 0 {
            let start: usize = self.inner.position();
            let known: usize = self.messages.len();
            match skip_to_data(&mut self.inner, false, &mut self.messages) {
                Err(e) => {
                    self.inner.seek(start);
                    self.messages.truncate(known);
                    assert(messages(self.messages@) =~= messages(old(self).messages@));
                    return Err(e);
                },
                Ok(n) => {
                    self.pending = n;
                },
            }
        }
        let mut n: usize = self.inner.remaining();
        if max < n {
            n = max;
        }
        if self.enabled && self.pending < n {
            n = self.pending;
        }
        let res = self.inner.take_bytes(n);
        if self.enabled {
            self.pending = self.pending - n;
        }
        res
    }

    /// Hands out the messages that came in so far.
    pub fn take_messages(&mut self) -> (out: Vec<RemoteMessage>)
        ensures
            messages(out@) == old(self).received(),
            final(self).received() == Seq::<Message>::empty(),
            final(self).input() == old(self).input(),
            final(self).framed() == old(self).framed(),
            final(self).left() == old(self).left(),
    {
        let mut out: Vec<RemoteMessage> = Vec::new();
        out.append(&mut self.messages);
        assert(messages(out@) =~= messages(old(self).messages@));
        assert(messages(self.messages@) =~= Seq::<Message>::empty());
        out
    }
}

// ---------------------------------------------------------------------------
// Reporting messages
// ---------------------------------------------------------------------------

/// How grave a message from the peer is.
pub open spec fn message_level(code: MsgCode) -> LogLevel {
    match code {
        MsgCode::Info => LogLevel::Info,
        MsgCode::Client => LogLevel::Info,
        MsgCode::Warning => LogLevel::Warning,
        MsgCode::Error => LogLevel::Error,
        MsgCode::ErrorXfer => LogLevel::Error,
        MsgCode::ErrorSocket => LogLevel::Error,
        MsgCode::ErrorUtf8 => LogLevel::Error,
        _ => LogLevel::Debug,
    }
}

/// The name of a message code.
pub open spec fn code_name(code: MsgCode) -> &'static str {
    match code {
        MsgCode::Data => "Data",
        MsgCode::ErrorXfer => "ErrorXfer",
        MsgCode::Info => "Info",
        MsgCode::Error => "Error",
        MsgCode::Warning => "Warning",
        MsgCode::ErrorSocket => "ErrorSocket",
        MsgCode::Log => "Log",
        MsgCode::Client => "Client",
        MsgCode::ErrorUtf8 => "ErrorUtf8",
        MsgCode::Redo => "Redo",
        MsgCode::Stats => "Stats",
        MsgCode::IoError => "IoError",
        MsgCode::IoTimeout => "IoTimeout",
        MsgCode::Noop => "Noop",
        MsgCode::ErrorExit => "ErrorExit",
        MsgCode::Success => "Success",
        MsgCode::Deleted => "Deleted",
        MsgCode::NoSend => "NoSend",
    }
}

fn name_of_code(code: MsgCode) -> (name: &'static str)
    ensures
        name == code_name(code),
{
    match code {
        MsgCode::Data => "Data",
        MsgCode::ErrorXfer => "ErrorXfer",
        MsgCode::Info => "Info",
        MsgCode::Error => "Error",
        MsgCode::Warning => "Warning",
        MsgCode::ErrorSocket => "ErrorSocket",
        MsgCode::Log => "Log",
        MsgCode::Client => "Client",
        MsgCode::ErrorUtf8 => "ErrorUtf8",
        MsgCode::Redo => "Redo",
        MsgCode::Stats => "Stats",
        MsgCode::IoError => "IoError",
        MsgCode::IoTimeout => "IoTimeout",
        MsgCode::Noop => "Noop",
        MsgCode::ErrorExit => "ErrorExit",
        MsgCode::Success => "Success",
        MsgCode::Deleted => "Deleted",
        MsgCode::NoSend => "NoSend",
    }
}

/// How a message reads that nothing is done with.
pub open spec fn unhandled_line(start: Seq<char>, m: Message) -> Seq<char> {
    start + code_name(m.code)@ + " len="@ + decimal(m.len as nat)
}

/// How a message reads in the log that came over a `MultiplexStream`.
pub open spec fn message_line(m: Message) -> Seq<char> {
    match m.code {
        MsgCode::Info => "[remote] "@ + m.text,
        MsgCode::Client => "[remote] "@ + m.text,
        MsgCode::Warning => "[remote warning] "@ + m.text,
        MsgCode::Error => "[remote error] "@ + m.text,
        MsgCode::ErrorXfer => "[remote error] "@ + m.text,
        MsgCode::ErrorSocket => "[remote error] "@ + m.text,
        MsgCode::ErrorUtf8 => "[remote error] "@ + m.text,
        MsgCode::Log => "[remote log] "@ + m.text,
        _ => unhandled_line("unhandled multiplex msg code="@, m),
    }
}

/// How a message reads in the log that came over a `MplexReader`, which does
/// nothing with the messages of a log.
pub open spec fn mplex_line(m: Message) -> Seq<char> {
    match message_level(m.code) {
        LogLevel::Debug => unhandled_line("unhandled mplex msg code="@, m),
        _ => message_line(m),
    }
}

fn unhandled(start: &str, m: &RemoteMessage) -> (s: String)
    ensures
        s@ == unhandled_line(start@, m@),
{
    let mut s: String = String::new();
    s.push_str(start);
    s.push_str(name_of_code(m.code));
    s.push_str(" len=");
    push_decimal(&mut s, m.len as u64);
    assert(s@ =~= unhandled_line(start@, m@));
    s
}

/// How grave a message is that came over a `MultiplexStream`, and how it reads
/// in the log.
pub fn report_message(m: &RemoteMessage) -> (line: (LogLevel, String))
    ensures
        line.0 == message_level(m.code),
        line.1@ == message_line(m@),
{
    let mut s: String = String::new();
    let level: LogLevel = match m.code {
        MsgCode::Info | MsgCode::Client => {
            s.push_str("[remote] ");
            LogLevel::Info
        },
        MsgCode::Warning => {
            s.push_str("[remote warning] ");
            LogLevel::Warning
        },
        MsgCode::Error | MsgCode::ErrorXfer | MsgCode::ErrorSocket | MsgCode::ErrorUtf8 => {
            s.push_str("[remote error] ");
            LogLevel::Error
        },
        MsgCode::Log => {
            s.push_str("[remote log] ");
            LogLevel::Debug
        },
        _ => {
            return (LogLevel::Debug, unhandled("unhandled multiplex msg code=", m));
        },
    };
    s.push_str(m.text.as_str());
    assert(s@ =~= message_line(m@));
    (level, s)
}

/// How grave a message is that came over a `MplexReader`, and how it reads in
/// the log.
pub fn report_mplex_message(m: &RemoteMessage) -> (line: (LogLevel, String))
    ensures
        line.0 == message_level(m.code),
        line.1@ == mplex_line(m@),
{
    let (level, s): (LogLevel, String) = report_message(m);
    match level {
        LogLevel::Debug => (LogLevel::Debug, unhandled("unhandled mplex msg code=", m)),
        _ => (level, s),
    }
}

} // verus!
