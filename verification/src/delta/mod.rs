//! Finding what a file shares with its older version, and the token stream
//! that says so.

pub mod complete;
pub mod deflate_token;
pub mod match_blocks;
pub mod token;

pub use deflate_token::{DeflatedTokenReader, DeflatedTokenWriter};
pub use match_blocks::{
    find_matches, read_sum_bufs, read_sum_head, write_sum_bufs, write_sum_head, BlockHashTable,
    DeltaOp,
};
pub use token::{Token, TokenReader, TokenWriter};
