//! CRC32 checksums.
//!
//! The [`Crc32Interface`] trait is the interface the format uses to compute
//! CRC32 checksums. Embedded firmware usually has a hardware CRC32 peripheral
//! that implements it; [`SoftwareCrc32`] is the software implementation.

use crate::wire::le32;
use vstd::bytes::*;
use vstd::prelude::*;

verus! {

/// The polynomial used for CRC32 computation (the standard one of ethernet,
/// gzip, png, mpeg-2 and more).
pub const CRC32_POLYNOMIAL: u32 = 0x04C11DB7;

/// The initial value to start the calculation with.
pub const CRC32_INITIAL: u32 = 0xFFFFFFFF;

/// The value to XOR with the final CRC32 result.
pub const CRC32_FINAL_XOR: u32 = 0xFFFFFFFF;

/// Whether to reflect the input bytes.
pub const CRC32_REFLECT_INPUT: bool = true;

/// Whether to reflect the output CRC32 value.
pub const CRC32_REFLECT_OUTPUT: bool = true;

/// The CRC32 checksum of the ASCII string "123456789" with the above
/// parameters.
pub const CRC32_CHECK: u32 = 0xCBF43926;

/// The CRC32 residue: the CRC32 of a message followed by its own checksum.
pub const CRC32_RESIDUE: u32 = 0xDEBB20E3;

/// The CRC32 checksum of `data` under the parameters above (the
/// CRC-32/ISO-HDLC algorithm).
pub uninterp spec fn crc32_checksum(data: Seq<u8>) -> u32;

/// `data` ends with four bytes that hold, little-endian, the CRC32 checksum
/// of the bytes before them.
pub open spec fn ends_with_valid_crc(data: Seq<u8>) -> bool {
    &&& data.len() >= 4
    &&& crc32_checksum(data.take(data.len() - 4)) == spec_u32_from_le_bytes(data.skip(data.len() - 4))
}

/// Generic interface for some CRC32 calculator.
pub trait Crc32Interface {
    /// Computes the CRC32 checksum of the given data.
    fn crc32(&mut self, data: &[u8]) -> (r: u32)
        ensures
            r == crc32_checksum(data@),
    ;

    /// Validates the CRC32 checksum of the given data.
    ///
    /// The last 4 bytes of the data are the checksum, little-endian. Returns
    /// false if the data is less than 4 bytes long.
    fn validate_crc32(&mut self, data: &[u8]) -> (r: bool)
        ensures
            r == ends_with_valid_crc(data@),
    {
        let len = data.len();
        if len < 4 {
            return false;
        }
        let body = &data[0..len - 4];
        let crc_bytes = &data[len - 4..len];
        let computed = self.crc32(body);
        assert(body@ == data@.take(data@.len() - 4));
        assert(crc_bytes@ == data@.skip(data@.len() - 4));
        computed == u32_from_le_bytes(crc_bytes)
    }
}

/// Appending a checksum to data gives data that validates.
pub proof fn lemma_appended_crc_validates(data: Seq<u8>)
    ensures
        ends_with_valid_crc(data + le32(crc32_checksum(data))),
{
    let crc = crc32_checksum(data);
    let whole = data + le32(crc);
    crate::wire::lemma_le_lengths();
    assert(le32(crc).len() == 4);
    assert(whole.take(whole.len() - 4) =~= data);
    assert(whole.skip(whole.len() - 4) =~= le32(crc));
}

/// Software implementation of the [`Crc32Interface`] trait, for desktop
/// applications or where there is no hardware peripheral.
pub struct SoftwareCrc32 {}

impl SoftwareCrc32 {
    /// Creates a software CRC calculator with the format's parameters.
    pub fn new() -> Self {
        SoftwareCrc32 {  }
    }
}

impl Default for SoftwareCrc32 {
    fn default() -> Self {
        Self::new()
    }
}

/// Calls `crc::Crc::<u32>::checksum` on a calculator made by
/// `crc::Crc::<u32>::new` for `crc::CRC_32_ISO_HDLC`, whose width, polynomial,
/// initial value, reflections and final XOR are the constants of this module;
/// the result is the CRC32 checksum of `data`, named `crc32_checksum`.
#[verifier::external_body]
fn iso_hdlc_checksum(data: &[u8]) -> (r: u32)
    ensures
        r == crc32_checksum(data@),
{
    crc::Crc::<u32>::new(&crc::CRC_32_ISO_HDLC).checksum(data)
}

impl Crc32Interface for SoftwareCrc32 {
    fn crc32(&mut self, data: &[u8]) -> (r: u32) {
        iso_hdlc_checksum(data)
    }
}

} // verus!
