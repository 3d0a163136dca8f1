//! What is made of a file's contents.

use vstd::prelude::*;

use crate::checksum::strong::{strong_sum, StrongChecksum};
use crate::pipeline::{computed_type, csum_type_to_checksum_type};
use crate::protocol::constants::CsumType;

verus! {

/// As much of a file as is taken in.
pub open spec fn taken_in(data: Seq<u8>, max_size: nat) -> Seq<u8> {
    if data.len() > max_size {
        data.take(max_size as int)
    } else {
        data
    }
}

/// The contents of a file, up to `max_size` bytes of them.
pub fn map_file(data: Vec<u8>, max_size: u64) -> (out: Vec<u8>)
    ensures
        out@ == taken_in(data@, max_size as nat),
        out@ == if data@.len() > max_size {
            data@.take(max_size as int)
        } else {
            data@
        },
{
    let mut out: Vec<u8> = data;
    if out.len() as u64 > max_size {
        out.truncate(max_size as usize);
        assert(out@ =~= data@.take(max_size as int));
    }
    out
}

/// The strong checksum of a whole file.
pub fn file_checksum(data: &[u8], csum_type: CsumType) -> (sum: Vec<u8>)
    ensures
        sum@ == strong_sum(data@, computed_type(csum_type), 0, false),
{
    StrongChecksum::file_checksum(data, csum_type_to_checksum_type(csum_type))
}

} // verus!
