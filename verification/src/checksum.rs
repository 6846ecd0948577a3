//! The checksum that guards a log record's payload.

use vstd::prelude::*;

verus! {

/// The CRC-32 (IEEE) checksum of `bytes`.
pub uninterp spec fn crc32(bytes: Seq<u8>) -> u32;

/// `crc32fast::hash` is a pure function of the bytes it is handed: it starts
/// from a fixed state, digests `buf` once and returns the digest. Nothing is
/// claimed of the value beyond that.
pub assume_specification[ crc32fast::hash ](buf: &[u8]) -> (sum: u32)
    ensures
        sum == crc32(buf@),
;

} // verus!
