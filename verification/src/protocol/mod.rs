//! Constants, exit codes and data types of the protocol.

pub mod constants;
pub mod errcode;
pub mod types;
