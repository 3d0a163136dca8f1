//! Exit codes of the program.

use vstd::prelude::*;

use crate::text::{push_signed, signed_decimal};

verus! {

/// Why the program ended.
#[derive(Debug, Clone, Copy, PartialEq, Eq, Structural)]
pub enum ExitCode {
    Success,
    Syntax,
    Protocol,
    FileSelect,
    Unsupported,
    StartClient,
    SocketIo,
    FileIo,
    StreamIo,
    MessageIo,
    Ipc,
    Crashed,
    Terminated,
    Signal1,
    Signal,
    WaitChild,
    Malloc,
    Partial,
    Vanished,
    DelLimit,
    Timeout,
    ConTimeout,
    CmdFailed,
    CmdKilled,
    CmdRun,
    CmdNotFound,
}

impl ExitCode {
    /// The number of an exit code.
    pub open spec fn number(self) -> i32 {
        match self {
            ExitCode::Success => 0,
            ExitCode::Syntax => 1,
            ExitCode::Protocol => 2,
            ExitCode::FileSelect => 3,
            ExitCode::Unsupported => 4,
            ExitCode::StartClient => 5,
            ExitCode::SocketIo => 10,
            ExitCode::FileIo => 11,
            ExitCode::StreamIo => 12,
            ExitCode::MessageIo => 13,
            ExitCode::Ipc => 14,
            ExitCode::Crashed => 15,
            ExitCode::Terminated => 16,
            ExitCode::Signal1 => 19,
            ExitCode::Signal => 20,
            ExitCode::WaitChild => 21,
            ExitCode::Malloc => 22,
            ExitCode::Partial => 23,
            ExitCode::Vanished => 24,
            ExitCode::DelLimit => 25,
            ExitCode::Timeout => 30,
            ExitCode::ConTimeout => 35,
            ExitCode::CmdFailed => 124,
            ExitCode::CmdKilled => 125,
            ExitCode::CmdRun => 126,
            ExitCode::CmdNotFound => 127,
        }
    }

    /// What an exit code means, in words.
    pub open spec fn words(self) -> Seq<char> {
        match self {
            ExitCode::Success => "success"@,
            ExitCode::Syntax => "syntax or usage error"@,
            ExitCode::Protocol => "protocol incompatibility"@,
            ExitCode::FileSelect => "errors selecting input/output files"@,
            ExitCode::Unsupported => "requested action not supported"@,
            ExitCode::StartClient => "error starting client-server protocol"@,
            ExitCode::SocketIo => "error in socket IO"@,
            ExitCode::FileIo => "error in file IO"@,
            ExitCode::StreamIo => "error in rsync protocol data stream"@,
            ExitCode::MessageIo => "errors with program diagnostics"@,
            ExitCode::Ipc => "error in IPC code"@,
            ExitCode::Crashed => "sibling crashed"@,
            ExitCode::Terminated => "sibling terminated abnormally"@,
            ExitCode::Signal1 => "received SIGUSR1"@,
            ExitCode::Signal => "received SIGINT, SIGTERM, or SIGHUP"@,
            ExitCode::WaitChild => "error in waitpid()"@,
            ExitCode::Malloc => "error allocating core memory buffers"@,
            ExitCode::Partial => "partial transfer"@,
            ExitCode::Vanished => "file(s) vanished on sender side"@,
            ExitCode::DelLimit => "skipped some deletes due to --max-delete"@,
            ExitCode::Timeout => "timeout in data send/receive"@,
            ExitCode::ConTimeout => "timeout waiting for daemon connection"@,
            ExitCode::CmdFailed => "remote command failed"@,
            ExitCode::CmdKilled => "remote command killed"@,
            ExitCode::CmdRun => "remote command could not be run"@,
            ExitCode::CmdNotFound => "remote command not found"@,
        }
    }

    /// The number of this exit code.
    pub fn as_i32(self) -> (v: i32)
        ensures
            v == self.number(),
    {
        match self {
            ExitCode::Success => 0,
            ExitCode::Syntax => 1,
            ExitCode::Protocol => 2,
            ExitCode::FileSelect => 3,
            ExitCode::Unsupported => 4,
            ExitCode::StartClient => 5,
            ExitCode::SocketIo => 10,
            ExitCode::FileIo => 11,
            ExitCode::StreamIo => 12,
            ExitCode::MessageIo => 13,
            ExitCode::Ipc => 14,
            ExitCode::Crashed => 15,
            ExitCode::Terminated => 16,
            ExitCode::Signal1 => 19,
            ExitCode::Signal => 20,
            ExitCode::WaitChild => 21,
            ExitCode::Malloc => 22,
            ExitCode::Partial => 23,
            ExitCode::Vanished => 24,
            ExitCode::DelLimit => 25,
            ExitCode::Timeout => 30,
            ExitCode::ConTimeout => 35,
            ExitCode::CmdFailed => 124,
            ExitCode::CmdKilled => 125,
            ExitCode::CmdRun => 126,
            ExitCode::CmdNotFound => 127,
        }
    }

    /// What this exit code means, in words.
    pub fn description(self) -> (s: &'static str)
        ensures
            s@ == self.words(),
    {
        match self {
            ExitCode::Success => "success",
            ExitCode::Syntax => "syntax or usage error",
            ExitCode::Protocol => "protocol incompatibility",
            ExitCode::FileSelect => "errors selecting input/output files",
            ExitCode::Unsupported => "requested action not supported",
            ExitCode::StartClient => "error starting client-server protocol",
            ExitCode::SocketIo => "error in socket IO",
            ExitCode::FileIo => "error in file IO",
            ExitCode::StreamIo => "error in rsync protocol data stream",
            ExitCode::MessageIo => "errors with program diagnostics",
            ExitCode::Ipc => "error in IPC code",
            ExitCode::Crashed => "sibling crashed",
            ExitCode::Terminated => "sibling terminated abnormally",
            ExitCode::Signal1 => "received SIGUSR1",
            ExitCode::Signal => "received SIGINT, SIGTERM, or SIGHUP",
            ExitCode::WaitChild => "error in waitpid()",
            ExitCode::Malloc => "error allocating core memory buffers",
            ExitCode::Partial => "partial transfer",
            ExitCode::Vanished => "file(s) vanished on sender side",
            ExitCode::DelLimit => "skipped some deletes due to --max-delete",
            ExitCode::Timeout => "timeout in data send/receive",
            ExitCode::ConTimeout => "timeout waiting for daemon connection",
            ExitCode::CmdFailed => "remote command failed",
            ExitCode::CmdKilled => "remote command killed",
            ExitCode::CmdRun => "remote command could not be run",
            ExitCode::CmdNotFound => "remote command not found",
        }
    }

    /// The number, and the words in brackets behind it.
    pub fn to_text(self) -> (s: String)
        ensures
            s@ == signed_decimal(self.number() as int) + " ("@ + self.words() + ")"@,
    {
        let mut s: String = String::new();
        push_signed(&mut s, self.as_i32() as i64);
        s.push_str(" (");
        s.push_str(self.description());
        s.push_str(")");
        assert(s@ =~= signed_decimal(self.number() as int) + " ("@ + self.words() + ")"@);
        s
    }
}

/// No two exit codes have the same number.
pub proof fn exit_numbers_differ(a: ExitCode, b: ExitCode)
    ensures
        a.number() == b.number() ==> a == b,
{
}

} // verus!
