//! Rolling and strong checksums.

pub mod md4;
pub mod rolling;
pub mod strong;

pub use rolling::{checksum1, RollingChecksum};
pub use strong::{ChecksumType, StrongChecksum, SumHead};
