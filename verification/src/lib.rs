//! The rsync wire protocol and transfer engine as a verified library.
//!
//! Everything that decides what bytes go on the wire, what a peer's bytes
//! mean, and how a file is rebuilt from a basis and a token stream stands
//! here, each function with its contract.  The surrounding program moves
//! bytes between sockets, files and the library.

pub mod batch;
pub mod checksum;
pub mod client;
pub mod daemon;
pub mod delete;
pub mod delta;
pub mod fileops;
pub mod filter;
pub mod flags;
pub mod flist;
pub mod io;
pub mod laws;
pub mod listing;
pub mod log;
pub mod options;
pub mod options_laws;
pub mod options_server;
pub mod path;
pub mod pipeline;
pub mod progress;
pub mod protocol;
pub mod report;
pub mod server;
pub mod session;
pub mod setup;
pub mod text;
pub mod transport;
pub mod uidlist;
pub mod util;
