//! The greeting of a daemon, as its client goes through it.
//!
//! Both sides say which protocol they speak; the client names a module; the
//! daemon answers with lines until it grants or refuses the module; the
//! client sends its arguments.  [`DaemonClient`] takes the daemon's lines one
//! by one and says what is to be done.

use vstd::prelude::*;
use vstd::utf8::encode_utf8;

use crate::io::bytes::put_bytes;
use crate::protocol::constants::{MIN_PROTOCOL_VERSION, PROTOCOL_VERSION};
use crate::text::{
    after_prefix, chars_of, chomp, decimal, is_text, parse_number, parsed_number, push_decimal,
    string_of, strip_text, texts, without_line_end,
};

verus! {

/// What is in front of a full stop or a blank.
pub open spec fn major_part(s: Seq<char>) -> Seq<char>
    decreases s.len(),
{
    if s.len() == 0 || s[0] == '.' || s[0] == ' ' {
        Seq::empty()
    } else {
        seq![s[0]] + major_part(s.skip(1))
    }
}

/// The protocol that a greeting names.
pub open spec fn greeting_protocol(line: Seq<char>) -> Option<nat> {
    match after_prefix(line, "@RSYNCD: "@) {
        Some(rest) => parsed_number(major_part(rest), u32::MAX as nat),
        None => None,
    }
}

/// Reads `@RSYNCD: MAJOR[.SUB]`.
pub fn parse_greeting(line: &str) -> (res: Option<u32>)
    ensures
        match res {
            Some(n) => greeting_protocol(line@) == Some(n as nat),
            None => greeting_protocol(line@) == None::<nat>,
        },
{
    let chars: Vec<char> = chars_of(line);
    greeting_in(chars.as_slice())
}

fn greeting_in(line: &[char]) -> (res: Option<u32>)
    ensures
        match res {
            Some(n) => greeting_protocol(line@) == Some(n as nat),
            None => greeting_protocol(line@) == None::<nat>,
        },
{
    match strip_text(line, "@RSYNCD: ") {
        None => None,
        Some(rest) => {
            let mut n: usize = 0;
            assert(rest@.skip(0) =~= rest@);
            assert(rest@.take(0) + major_part(rest@) =~= major_part(rest@));
            while n < rest.len() && rest[n] != '.' && rest[n] != ' '
                invariant
                    n <= rest.len(),
                    rest@.take(n as int) + major_part(rest@.skip(n as int)) == major_part(rest@),
                decreases rest@.len() - n,
            {
                let ghost here = rest@.skip(n as int);
                assert(here.skip(1) =~= rest@.skip(n + 1));
                assert(rest@.take(n + 1) =~= rest@.take(n as int) + seq![here[0]]);
                assert(rest@.take(n + 1) + major_part(here.skip(1)) =~= rest@.take(n as int) + (seq![
                    here[0],
                ] + major_part(here.skip(1))));
                n = n + 1;
            }
            let major: &[char] = rest.split_at(n).0;
            assert(major@ =~= major_part(rest@)) by {
                assert(major_part(rest@.skip(n as int)) =~= Seq::<char>::empty());
            }
            match parse_number(major, 0xffff_ffff) {
                Some(v) => Some(v as u32),
                None => None,
            }
        },
    }
}

/// The line with which both sides open.
pub open spec fn hello_text() -> Seq<char> {
    "@RSYNCD: "@ + decimal(PROTOCOL_VERSION as nat) + ".0\n"@
}

/// The line with which both sides open.
pub fn hello_line() -> (s: String)
    ensures
        s@ == hello_text(),
{
    let mut s: String = String::new();
    s.push_str("@RSYNCD: ");
    push_decimal(&mut s, PROTOCOL_VERSION as u64);
    s.push_str(".0\n");
    assert(s@ =~= hello_text());
    s
}

/// An argument with the zero byte that ends it.
pub open spec fn nul_arg(arg: Seq<char>) -> Seq<u8> {
    encode_utf8(arg).push(0)
}

/// Arguments one behind the other.
pub open spec fn nul_args(args: Seq<Seq<char>>) -> Seq<u8>
    decreases args.len(),
{
    if args.len() == 0 {
        Seq::empty()
    } else {
        nul_arg(args[0]) + nul_args(args.skip(1))
    }
}

/// What a client sends for its arguments: `--server`, the arguments, and an
/// empty one as the end.
pub open spec fn argv_bytes(args: Seq<Seq<char>>) -> Seq<u8> {
    nul_arg("--server"@) + nul_args(args) + seq![0u8]
}

fn write_nul_arg(w: &mut Vec<u8>, arg: &str)
    ensures
        final(w)@ == old(w)@ + nul_arg(arg@),
{
    put_bytes(w, arg.as_bytes());
    w.push(0);
    assert(w@ =~= old(w)@ + nul_arg(arg@));
}

/// Writes the arguments of a client.
pub fn write_argv(args: &[String]) -> (out: Vec<u8>)
    ensures
        out@ == argv_bytes(texts(args@)),
{
    let ghost all = texts(args@);
    let ghost head = nul_arg("--server"@);
    let mut out: Vec<u8> = Vec::new();
    write_nul_arg(&mut out, "--server");
    let mut i: usize = 0;
    assert(all.skip(0) =~= all);
    assert(out@ =~= head);
    while i < args.len()
        invariant
            i <= args@.len(),
            all == texts(args@),
            out@ + nul_args(all.skip(i as int)) == head + nul_args(all),
        decreases args@.len() - i,
    {
        let ghost before = out@;
        let ghost rest = all.skip(i as int);
        assert(rest.skip(1) =~= all.skip(i + 1));
        write_nul_arg(&mut out, args[i].as_str());
        assert(out@ + nul_args(rest.skip(1)) =~= before + (nul_arg(rest[0]) + nul_args(
            rest.skip(1),
        )));
        i = i + 1;
    }
    assert(out@ + nul_args(all.skip(i as int)) =~= out@);
    out.push(0);
    assert(out@ =~= argv_bytes(all));
    out
}

/// How far a client is.
#[derive(Clone, Copy, Debug, PartialEq, Eq, Structural)]
pub enum ClientState {
    /// The daemon's greeting comes next.
    Greeting,
    /// The daemon has still to grant the module; the protocol is settled.
    Approval(u32),
    /// The arguments are sent; the protocol follows.
    Ready(u32),
    /// The daemon does not serve this client.
    Closed,
}

/// Why a daemon does not serve a client.
#[derive(Debug)]
pub enum ClientError {
    /// The greeting is none.
    BadGreeting(String),
    /// The daemon's protocol is too old.
    TooOld(u32),
    /// The daemon ended the conversation.
    NoAccess,
    /// The daemon asks for a password.
    AuthRequired,
    /// The daemon said why.
    Rejected(String),
    /// The connection ended.
    HungUp,
    /// The daemon went on before it had the arguments.
    ExtraBytes(usize),
}

/// What a client is to do.
#[derive(Debug)]
pub enum ClientAction {
    /// Send these bytes.
    Send(Vec<u8>),
    /// Show this line.
    Show(String),
    /// Read on.
    Wait,
    /// Give up.
    Fail(ClientError),
}

/// The model of a reason to give up.
pub enum Failure {
    BadGreeting(Seq<char>),
    TooOld(u32),
    NoAccess,
    AuthRequired,
    Rejected(Seq<char>),
    HungUp,
    ExtraBytes(usize),
}

/// The model of what a client is to do.
pub enum Action {
    Send(Seq<u8>),
    Show(Seq<char>),
    Wait,
    Fail(Failure),
}

impl View for ClientError {
    type V = Failure;

    open spec fn view(&self) -> Failure {
        match self {
            ClientError::BadGreeting(s) => Failure::BadGreeting(s@),
            ClientError::TooOld(p) => Failure::TooOld(*p),
            ClientError::NoAccess => Failure::NoAccess,
            ClientError::AuthRequired => Failure::AuthRequired,
            ClientError::Rejected(s) => Failure::Rejected(s@),
            ClientError::HungUp => Failure::HungUp,
            ClientError::ExtraBytes(n) => Failure::ExtraBytes(*n),
        }
    }
}

impl View for ClientAction {
    type V = Action;

    open spec fn view(&self) -> Action {
        match self {
            ClientAction::Send(b) => Action::Send(b@),
            ClientAction::Show(s) => Action::Show(s@),
            ClientAction::Wait => Action::Wait,
            ClientAction::Fail(e) => Action::Fail(e@),
        }
    }
}

/// The protocol that both sides speak.
pub open spec fn common_protocol(peer: nat) -> nat {
    if peer < PROTOCOL_VERSION {
        peer
    } else {
        PROTOCOL_VERSION as nat
    }
}

/// What a client does on the daemon's greeting.
pub open spec fn on_greeting(module: Seq<char>, line: Seq<char>) -> (ClientState, Action) {
    match greeting_protocol(line) {
        None => (ClientState::Closed, Action::Fail(Failure::BadGreeting(line))),
        Some(peer) => if common_protocol(peer) < MIN_PROTOCOL_VERSION {
            (ClientState::Closed, Action::Fail(Failure::TooOld(peer as u32)))
        } else {
            (
                ClientState::Approval(common_protocol(peer) as u32),
                Action::Send(encode_utf8(module + "\n"@)),
            )
        },
    }
}

/// What a client does on a line of the daemon's answer.
pub open spec fn on_answer(
    protocol: u32,
    args: Seq<Seq<char>>,
    line: Seq<char>,
    buffered: usize,
) -> (ClientState, Action) {
    match after_prefix(line, "@RSYNCD: "@) {
        Some(rest) => if rest == "OK"@ {
            if buffered > 0 {
                (ClientState::Closed, Action::Fail(Failure::ExtraBytes(buffered)))
            } else {
                (ClientState::Ready(protocol), Action::Send(argv_bytes(args)))
            }
        } else if rest == "EXIT"@ {
            (ClientState::Closed, Action::Fail(Failure::NoAccess))
        } else if after_prefix(rest, "AUTHREQD "@) is Some {
            (ClientState::Closed, Action::Fail(Failure::AuthRequired))
        } else {
            (ClientState::Approval(protocol), Action::Wait)
        },
        None => match after_prefix(line, "@ERROR"@) {
            Some(rest) => (
                ClientState::Closed,
                Action::Fail(
                    Failure::Rejected(
                        match after_prefix(rest, ":"@) {
                            Some(reason) => reason,
                            None => rest,
                        },
                    ),
                ),
            ),
            None => (ClientState::Approval(protocol), Action::Show(line)),
        },
    }
}

/// What a client does on a line.
pub open spec fn client_step(
    state: ClientState,
    module: Seq<char>,
    args: Seq<Seq<char>>,
    line: Seq<char>,
    buffered: usize,
) -> (ClientState, Action) {
    let line = without_line_end(line);
    match state {
        ClientState::Greeting => on_greeting(module, line),
        ClientState::Approval(p) => on_answer(p, args, line, buffered),
        _ => (state, Action::Wait),
    }
}

/// What a client does at the end of the connection.
pub open spec fn client_end(state: ClientState) -> (ClientState, Action) {
    match state {
        ClientState::Greeting => (
            ClientState::Closed,
            Action::Fail(Failure::BadGreeting(Seq::empty())),
        ),
        ClientState::Approval(_) => (ClientState::Closed, Action::Fail(Failure::HungUp)),
        _ => (state, Action::Wait),
    }
}

/// A client of a daemon, up to where the protocol starts.
pub struct DaemonClient {
    pub state: ClientState,
    pub module: String,
    pub args: Vec<String>,
}

impl DaemonClient {
    /// A client that asks for a module.  `args` are the arguments behind
    /// `--server`.
    pub fn new(module: String, args: Vec<String>) -> (c: DaemonClient)
        ensures
            c.state == ClientState::Greeting,
            c.module == module,
            c.args == args,
    {
        DaemonClient { state: ClientState::Greeting, module, args }
    }

    fn greeted(&mut self, line: &[char]) -> (a: ClientAction)
        ensures
            (final(self).state, a@) == on_greeting(old(self).module@, line@),
            final(self).module == old(self).module,
            final(self).args == old(self).args,
    {
        match greeting_in(line) {
            None => {
                self.state = ClientState::Closed;
                ClientAction::Fail(ClientError::BadGreeting(string_of(line)))
            },
            Some(peer) => {
                let protocol: u32 = if peer < PROTOCOL_VERSION {
                    peer
                } else {
                    PROTOCOL_VERSION
                };
                if protocol < MIN_PROTOCOL_VERSION {
                    self.state = ClientState::Closed;
                    return ClientAction::Fail(ClientError::TooOld(peer));
                }
                self.state = ClientState::Approval(protocol);
                let mut text: String = self.module.clone();
                text.push_str("\n");
                let mut out: Vec<u8> = Vec::new();
                put_bytes(&mut out, text.as_str().as_bytes());
                assert(out@ =~= encode_utf8(text@));
                ClientAction::Send(out)
            },
        }
    }

    fn answered(&mut self, protocol: u32, line: &[char], buffered: usize) -> (a: ClientAction)
        requires
            old(self).state == ClientState::Approval(protocol),
        ensures
            (final(self).state, a@) == on_answer(
                protocol,
                texts(old(self).args@),
                line@,
                buffered,
            ),
            final(self).module == old(self).module,
            final(self).args == old(self).args,
    {
        match strip_text(line, "@RSYNCD: ") {
            Some(rest) => {
                if is_text(rest, "OK") {
                    if buffered > 0 {
                        self.state = ClientState::Closed;
                        return ClientAction::Fail(ClientError::ExtraBytes(buffered));
                    }
                    self.state = ClientState::Ready(protocol);
                    return ClientAction::Send(write_argv(self.args.as_slice()));
                }
                if is_text(rest, "EXIT") {
                    self.state = ClientState::Closed;
                    return ClientAction::Fail(ClientError::NoAccess);
                }
                match strip_text(rest, "AUTHREQD ") {
                    Some(_) => {
                        self.state = ClientState::Closed;
                        ClientAction::Fail(ClientError::AuthRequired)
                    },
                    None => ClientAction::Wait,
                }
            },
            None => match strip_text(line, "@ERROR") {
                Some(rest) => {
                    self.state = ClientState::Closed;
                    let reason: String = match strip_text(rest, ":") {
                        Some(r) => string_of(r),
                        None => string_of(rest),
                    };
                    ClientAction::Fail(ClientError::Rejected(reason))
                },
                None => ClientAction::Show(string_of(line)),
            },
        }
    }

    /// Takes a line of the daemon; `buffered` says how many bytes behind it
    /// were read already.
    pub fn on_line(&mut self, line: &str, buffered: usize) -> (a: ClientAction)
        ensures
            (final(self).state, a@) == client_step(
                old(self).state,
                old(self).module@,
                texts(old(self).args@),
                line@,
                buffered,
            ),
            final(self).module == old(self).module,
            final(self).args == old(self).args,
    {
        let chars: Vec<char> = chars_of(line);
        let line: &[char] = chomp(chars.as_slice());
        match self.state {
            ClientState::Greeting => self.greeted(line),
            ClientState::Approval(p) => self.answered(p, line, buffered),
            _ => ClientAction::Wait,
        }
    }

    /// Takes the end of the connection: before the greeting it counts as an
    /// empty one.
    pub fn on_eof(&mut self) -> (a: ClientAction)
        ensures
            (final(self).state, a@) == client_end(old(self).state),
            final(self).module == old(self).module,
            final(self).args == old(self).args,
            match old(self).state {
                ClientState::Greeting => (final(self).state, a@) == (
                    ClientState::Closed,
                    Action::Fail(Failure::BadGreeting(Seq::empty())),
                ),
                ClientState::Approval(_) => (final(self).state, a@) == (
                    ClientState::Closed,
                    Action::Fail(Failure::HungUp),
                ),
                _ => (final(self).state, a@) == (old(self).state, Action::Wait),
            },
    {
        match self.state {
            ClientState::Greeting => {
                self.state = ClientState::Closed;
                ClientAction::Fail(ClientError::BadGreeting(String::new()))
            },
            ClientState::Approval(_) => {
                self.state = ClientState::Closed;
                ClientAction::Fail(ClientError::HungUp)
            },
            _ => ClientAction::Wait,
        }
    }
}

/// A client that is ready speaks a protocol that both sides know, and it got
/// there only by a grant: a line `@RSYNCD: OK` with nothing behind it.
pub proof fn ready_needs_a_grant(
    state: ClientState,
    module: Seq<char>,
    args: Seq<Seq<char>>,
    line: Seq<char>,
    buffered: usize,
)
    requires
        state matches ClientState::Approval(p) ==> MIN_PROTOCOL_VERSION <= p <= PROTOCOL_VERSION,
        !(state is Ready),
    ensures
        ({
            let (next, action) = client_step(state, module, args, line, buffered);
            &&& next matches ClientState::Approval(p) ==> MIN_PROTOCOL_VERSION <= p
                <= PROTOCOL_VERSION
            &&& next matches ClientState::Ready(p) ==> {
                &&& MIN_PROTOCOL_VERSION <= p <= PROTOCOL_VERSION
                &&& state == ClientState::Approval(p)
                &&& after_prefix(without_line_end(line), "@RSYNCD: "@) == Some("OK"@)
                &&& buffered == 0
                &&& action == Action::Send(argv_bytes(args))
            }
        }),
{
}

} // verus!
