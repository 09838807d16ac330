//! Checksums computed by outside crates.
//!
//! The two integrity words of the on-disk formats, Adler-32 (v1/v2
//! partitions) and CRC-32 (v3 variable records), are computed by the
//! `adler32` and `crc32fast` crates.  Both are pure functions of the input
//! bytes alone; their results are given names here, and every contract of
//! this library speaks of those names.

use vstd::prelude::*;

verus! {
/// The Adler-32 checksum of a byte sequence, as the `adler32` crate
/// computes it.
pub uninterp spec fn adler32_of(b: Seq<u8>) -> u32;

/// The CRC-32 checksum of a byte sequence, as the `crc32fast` crate
/// computes it.
pub uninterp spec fn crc32_of(b: Seq<u8>) -> u32;

/// Relies on `adler32::adler32`: the checksum is a function of the bytes
/// read, and reading from an in-memory slice never fails, so the inner
/// `Result` is always `Ok`.
#[verifier::external_body]
pub fn adler32_sum(b: &[u8]) -> (r: u32)
    ensures
        r == adler32_of(b@),
{
    adler32::adler32(b).unwrap()
}

/// Relies on `crc32fast::hash`: the checksum is a function of the input
/// bytes alone.
#[verifier::external_body]
pub fn crc32_sum(b: &[u8]) -> (r: u32)
    ensures
        r == crc32_of(b@),
{
    crc32fast::hash(b)
}

} // verus!
