//! Reaching the far end: command lines of remote shells, and the greeting of
//! a daemon.

pub mod daemon;
pub mod local;
pub mod ssh;
