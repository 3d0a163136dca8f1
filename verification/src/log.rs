//! Log levels, verbosity and the form of a log line.

use vstd::prelude::*;

verus! {

/// How grave a message is.
#[derive(Debug, Clone, Copy, PartialEq, Eq, PartialOrd, Ord, Structural)]
pub enum LogLevel {
    Error,
    Warning,
    Info,
    Debug,
}

/// The name of a level.
pub open spec fn level_name(level: LogLevel) -> Seq<char> {
    match level {
        LogLevel::Error => "ERROR"@,
        LogLevel::Warning => "WARNING"@,
        LogLevel::Info => "INFO"@,
        LogLevel::Debug => "DEBUG"@,
    }
}

impl LogLevel {
    /// The name of this level.
    pub fn as_str(self) -> (s: &'static str)
        ensures
            s@ == level_name(self),
    {
        match self {
            LogLevel::Error => "ERROR",
            LogLevel::Warning => "WARNING",
            LogLevel::Info => "INFO",
            LogLevel::Debug => "DEBUG",
        }
    }
}

/// How much a process says, and what it calls itself.
#[derive(Debug)]
pub struct LogState {
    pub verbosity: i32,
    pub who: String,
}

impl LogState {
    /// A quiet process that calls itself `rsync`.
    pub fn new() -> (s: LogState)
        ensures
            s.verbosity == 0,
            s.who@ == "rsync"@,
    {
        let mut who: String = String::new();
        who.push_str("rsync");
        assert(who@ =~= "rsync"@);
        LogState { verbosity: 0, who }
    }
}

/// Sets how much the process says.
pub fn set_verbosity(state: &mut LogState, v: i32)
    ensures
        final(state).verbosity == v,
        final(state).who == old(state).who,
{
    state.verbosity = v;
}

/// How much the process says.
pub fn get_verbosity(state: &LogState) -> (v: i32)
    ensures
        v == state.verbosity,
{
    state.verbosity
}

/// Whether a message of this level is printed: errors and warnings always,
/// information from verbosity 1 on, debugging output from 2 on.
pub open spec fn prints(level: LogLevel, verbosity: i32) -> bool {
    match level {
        LogLevel::Error => true,
        LogLevel::Warning => true,
        LogLevel::Info => verbosity >= 1,
        LogLevel::Debug => verbosity >= 2,
    }
}

/// The line that is printed for a message.
pub open spec fn printed_line(level: LogLevel, who: Seq<char>, msg: Seq<char>) -> Seq<char> {
    match level {
        LogLevel::Error => "["@ + who + "] ERROR: "@ + msg,
        LogLevel::Warning => "["@ + who + "] WARNING: "@ + msg,
        LogLevel::Info => msg,
        LogLevel::Debug => "["@ + who + "] "@ + msg,
    }
}

/// The line to print for a message, where it is printed at all.
pub fn log_line(state: &LogState, level: LogLevel, msg: &str) -> (line: Option<String>)
    ensures
        match line {
            Some(s) => prints(level, state.verbosity) && s@ == printed_line(
                level,
                state.who@,
                msg@,
            ),
            None => !prints(level, state.verbosity),
        },
{
    let shown: bool = match level {
        LogLevel::Error => true,
        LogLevel::Warning => true,
        LogLevel::Info => state.verbosity >= 1,
        LogLevel::Debug => state.verbosity >= 2,
    };
    if !shown {
        return None;
    }
    let mut s: String = String::new();
    match level {
        LogLevel::Error => {
            s.push_str("[");
            s.push_str(state.who.as_str());
            s.push_str("] ERROR: ");
        },
        LogLevel::Warning => {
            s.push_str("[");
            s.push_str(state.who.as_str());
            s.push_str("] WARNING: ");
        },
        LogLevel::Info => {},
        LogLevel::Debug => {
            s.push_str("[");
            s.push_str(state.who.as_str());
            s.push_str("] ");
        },
    }
    s.push_str(msg);
    assert(s@ =~= printed_line(level, state.who@, msg@));
    Some(s)
}

} // verus!
