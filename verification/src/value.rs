//! The values that packets hold.

use vstd::prelude::*;

verus! {

/// The value equivalent of the [`crate::metadata::ValueKind`] enum.
///
/// A 32-bit float is held as its IEEE-754 bit pattern, exactly as the four
/// little-endian bytes of the packet give it.
#[derive(Debug, Clone, Copy, PartialEq, Eq, Structural)]
pub enum PacketValue {
    U8(u8),
    U16(u16),
    U32(u32),
    U64(u64),
    I8(i8),
    I16(i16),
    I32(i32),
    /// The bits of an `f32`.
    F32(u32),
    Bool(bool),
}

} // verus!
