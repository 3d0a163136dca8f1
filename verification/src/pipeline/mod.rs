//! The stages of a transfer.
//!
//! The receiving side asks for files and sends the checksums of what it has;
//! the sending side answers with what is to be copied and what is new; the
//! receiving side rebuilds the file.

use vstd::prelude::*;

use crate::checksum::strong::ChecksumType;
use crate::protocol::constants::CsumType;

pub mod deflated;
pub mod found;
pub mod generator;
pub mod items;
pub mod laws;
pub mod local;
pub mod receiver;
pub mod run;
pub mod sender;

verus! {

/// The checksum that is computed for one that was agreed on.  Those that have
/// no implementation of their own are replaced by MD5.
pub open spec fn computed_type(ct: CsumType) -> ChecksumType {
    match ct {
        CsumType::NoSum => ChecksumType::NoSum,
        CsumType::Md4Archaic => ChecksumType::Md4Archaic,
        CsumType::Md4Busted => ChecksumType::Md4Busted,
        CsumType::Md4Old => ChecksumType::Md4Old,
        CsumType::Md4 => ChecksumType::Md4,
        _ => ChecksumType::Md5,
    }
}

/// The checksum that is computed for one that was agreed on.
pub fn csum_type_to_checksum_type(ct: CsumType) -> (t: ChecksumType)
    ensures
        t == computed_type(ct),
{
    match ct {
        CsumType::NoSum => ChecksumType::NoSum,
        CsumType::Md4Archaic => ChecksumType::Md4Archaic,
        CsumType::Md4Busted => ChecksumType::Md4Busted,
        CsumType::Md4Old => ChecksumType::Md4Old,
        CsumType::Md4 => ChecksumType::Md4,
        _ => ChecksumType::Md5,
    }
}

/// How many bytes the checksum has that was agreed on.
pub open spec fn sum_len_of(ct: CsumType) -> i32 {
    if ct == CsumType::NoSum {
        0
    } else {
        16
    }
}

/// How many bytes the checksum has that was agreed on.
pub fn csum_sum_len(ct: CsumType) -> (n: i32)
    ensures
        n == sum_len_of(ct),
{
    csum_type_to_checksum_type(ct).digest_len() as i32
}

} // verus!
