//! The Pokey Flight Log data logging system.
//!
//! A file-system and flight log format for writing and reading flight data.
//! Data is logged in blocks circularly across the disk; each block has a
//! header with a sequence number, a type, a timestamp and its own CRC, and a
//! payload that is CRC protected as well. Metadata blocks describe the
//! packets; data blocks hold packets made of a one byte ID, a relative 16-bit
//! timestamp and the packet's values.
//!
//! Every encoder and decoder here states, over the spec functions of the
//! modules, exactly which bytes it writes or which value it reads back.

use core::cmp::Ordering;
use vstd::bytes::*;
use vstd::prelude::*;
use vstd::std_specs::cmp::PartialOrdSpec;
use vstd::std_specs::cmp::PartialOrdSpecImpl;

pub mod block;
pub mod crc32;
pub mod metadata;
pub mod packet;
pub mod round_trip;
pub mod value;
pub mod wire;

verus! {

/// This is the current latest-version block size.
///
/// This matches the erase size of the flash that was used in the original NOR
/// drone project. Future versions will make this configurable.
pub const BLOCK_SIZE: usize = 4096;

/// The version of the format.
#[derive(Debug, Clone, Copy, PartialEq, Eq, Structural, Ord)]
pub enum Version {
    /// The first version of the format. Encoded as 0.
    V1,
    /// The second version of the format. Encoded as 1.
    ///
    /// This version added a new flag for packet defs on whether they should
    /// be logged to the terminal during decoding.
    V2,
}

impl View for Version {
    type V = Version;

    open spec fn view(&self) -> Version {
        *self
    }
}

impl Version {
    pub const LATEST: Version = Version::V2;

    /// The byte that encodes this version.
    pub open spec fn spec_to_u8(self) -> u8 {
        match self {
            Version::V1 => 0,
            Version::V2 => 1,
        }
    }

    /// The version that a byte encodes, if any.
    pub open spec fn spec_from_u8(value: u8) -> Option<Version> {
        if value == 0 {
            Some(Version::V1)
        } else if value == 1 {
            Some(Version::V2)
        } else {
            None
        }
    }

    /// The byte that encodes this version.
    pub fn to_u8(self) -> (r: u8)
        ensures
            r == self.spec_to_u8(),
    {
        match self {
            Version::V1 => 0,
            Version::V2 => 1,
        }
    }

    /// True when `value` encodes a version.
    pub fn is_valid_u8(value: u8) -> (r: bool)
        ensures
            r <==> Version::spec_from_u8(value) is Some,
    {
        value == 0 || value == 1
    }
}

/// Versions are ordered as their bytes: older versions first.
impl PartialOrd for Version {
    fn partial_cmp(&self, other: &Version) -> (r: Option<Ordering>) {
        let a = self.to_u8();
        let b = other.to_u8();
        if a < b {
            Some(Ordering::Less)
        } else if a == b {
            Some(Ordering::Equal)
        } else {
            Some(Ordering::Greater)
        }
    }
}

impl PartialOrdSpecImpl for Version {
    open spec fn obeys_partial_cmp_spec() -> bool {
        true
    }

    open spec fn partial_cmp_spec(&self, other: &Version) -> Option<Ordering> {
        if self.spec_to_u8() < other.spec_to_u8() {
            Some(Ordering::Less)
        } else if self.spec_to_u8() == other.spec_to_u8() {
            Some(Ordering::Equal)
        } else {
            Some(Ordering::Greater)
        }
    }
}

/// The first version orders before the second, and versions order as the
/// bytes that encode them.
pub proof fn lemma_version_order(a: Version, b: Version)
    ensures
        PartialOrdSpec::partial_cmp_spec(&Version::V1, &Version::V2) == Some(Ordering::Less),
        (PartialOrdSpec::partial_cmp_spec(&a, &b) == Some(Ordering::Less)) <==> a.spec_to_u8() < b.spec_to_u8(),
        (PartialOrdSpec::partial_cmp_spec(&a, &b) == Some(Ordering::Equal)) <==> a == b,
{
}

pub const LATEST_VERSION: Version = Version::LATEST;

/// A version is one byte: 0 for V1 and 1 for V2; any other byte is refused.
/// A byte is valid for [`Version::is_valid_u8`] exactly when a version
/// deserializes from it, and then it is that version's own byte.
pub proof fn lemma_version_byte(b: u8, rest: Seq<u8>, version: Version, v: Version)
    ensures
        Version::V1.spec_to_u8() == 0,
        Version::V2.spec_to_u8() == 1,
        Version::spec_deserialize(seq![b] + rest, version) == if b == 0 {
            Ok::<(usize, Version), DeserializeErrorView>((1, Version::V1))
        } else if b == 1 {
            Ok::<(usize, Version), DeserializeErrorView>((1, Version::V2))
        } else {
            Err::<(usize, Version), DeserializeErrorView>(DeserializeErrorView::InvalidVersion)
        },
        Version::spec_from_u8(b) is Some <==> Version::spec_deserialize(seq![b] + rest, version) is Ok,
        Version::spec_from_u8(b) matches Some(w) ==> w.spec_to_u8() == b,
        Version::spec_from_u8(v.spec_to_u8()) == Some(v),
{
    assert((seq![b] + rest)[0] == b);
}

/// The error of a serializer.
#[derive(Debug, Clone)]
pub enum BinarySerializeError {
    BufferTooSmall,
}

/// The error of a deserializer.
#[derive(Debug, Clone, PartialEq, Eq)]
pub enum BinaryDeserializeError {
    BufferTooSmall,
    InvalidVersion,
    InvalidBlockType,
    InvalidData,
    UnterminatedFieldName,
    /// The terminator's index, and the name's bytes read as UTF-8 with
    /// invalid sequences replaced.
    FieldNameTooLong(usize, String),
    FieldNameStorageError,
    InvalidValueKind,
}

/// What a [`BinaryDeserializeError`] says, with the text of a too-long field
/// name as its characters.
pub enum DeserializeErrorView {
    BufferTooSmall,
    InvalidVersion,
    InvalidBlockType,
    InvalidData,
    UnterminatedFieldName,
    FieldNameTooLong(usize, Seq<char>),
    FieldNameStorageError,
    InvalidValueKind,
}

impl View for BinaryDeserializeError {
    type V = DeserializeErrorView;

    open spec fn view(&self) -> DeserializeErrorView {
        match self {
            BinaryDeserializeError::BufferTooSmall => DeserializeErrorView::BufferTooSmall,
            BinaryDeserializeError::InvalidVersion => DeserializeErrorView::InvalidVersion,
            BinaryDeserializeError::InvalidBlockType => DeserializeErrorView::InvalidBlockType,
            BinaryDeserializeError::InvalidData => DeserializeErrorView::InvalidData,
            BinaryDeserializeError::UnterminatedFieldName => DeserializeErrorView::UnterminatedFieldName,
            BinaryDeserializeError::FieldNameTooLong(i, s) => DeserializeErrorView::FieldNameTooLong(*i, s@),
            BinaryDeserializeError::FieldNameStorageError => DeserializeErrorView::FieldNameStorageError,
            BinaryDeserializeError::InvalidValueKind => DeserializeErrorView::InvalidValueKind,
        }
    }
}

/// The view of a deserializer's result: the bytes used and the value's view,
/// or the error's view.
pub open spec fn result_view<T: View>(r: Result<(usize, T), BinaryDeserializeError>) -> Result<(usize, T::V), DeserializeErrorView> {
    match r {
        Ok((n, v)) => Ok((n, v@)),
        Err(e) => Err(e@),
    }
}

/// Objects that can be serialized into the binary format.
///
/// Serialization always uses the latest version of the format.
pub trait BinarySerializable {
    /// The bytes that encode this object.
    spec fn spec_encoding(&self) -> Seq<u8>;

    /// Serialize the data into the provided buffer.
    ///
    /// Writes the encoding at the start of `buf` and returns its length, or
    /// fails exactly when `buf` is shorter than the encoding, having then
    /// written at most a prefix of the encoding.
    fn serialize(&self, buf: &mut [u8]) -> (r: Result<usize, BinarySerializeError>)
        ensures
            final(buf)@.len() == old(buf)@.len(),
            r is Ok <==> self.spec_encoding().len() <= old(buf)@.len(),
            r matches Ok(n) ==> n == self.spec_encoding().len() && final(buf)@ == wire::splice(
                old(buf)@,
                0,
                self.spec_encoding(),
            ),
            r is Err ==> wire::holds_prefix_of(old(buf)@, final(buf)@, self.spec_encoding()),
    ;
}

/// Objects that can be deserialized from the binary format.
pub trait BinaryDeserializable: Sized + View {
    /// What deserializing `buf` under `version` gives: the number of bytes
    /// used and the value's view, or the error's view.
    spec fn spec_deserialize(buf: Seq<u8>, version: Version) -> Result<(usize, Self::V), DeserializeErrorView>;

    /// Deserialize the data from the provided buffer.
    ///
    /// Takes a version parameter so that older data may still be decoded.
    fn deserialize(buf: &[u8], version: Version) -> (r: Result<(usize, Self), BinaryDeserializeError>)
        ensures
            result_view(r) == Self::spec_deserialize(buf@, version),
            r matches Ok((n, _)) ==> n <= buf@.len(),
    ;
}

impl BinaryDeserializable for u8 {
    open spec fn spec_deserialize(buf: Seq<u8>, version: Version) -> Result<(usize, u8), DeserializeErrorView> {
        if buf.len() < 1 {
            Err(DeserializeErrorView::BufferTooSmall)
        } else {
            Ok((1, buf[0]))
        }
    }

    fn deserialize(buf: &[u8], _version: Version) -> (r: Result<(usize, u8), BinaryDeserializeError>) {
        if buf.len() < 1 {
            return Err(BinaryDeserializeError::BufferTooSmall);
        }
        Ok((1, buf[0]))
    }
}

impl BinaryDeserializable for u16 {
    open spec fn spec_deserialize(buf: Seq<u8>, version: Version) -> Result<(usize, u16), DeserializeErrorView> {
        if buf.len() < 2 {
            Err(DeserializeErrorView::BufferTooSmall)
        } else {
            Ok((2, spec_u16_from_le_bytes(buf.take(2))))
        }
    }

    fn deserialize(buf: &[u8], _version: Version) -> (r: Result<(usize, u16), BinaryDeserializeError>) {
        if buf.len() < 2 {
            return Err(BinaryDeserializeError::BufferTooSmall);
        }
        Ok((2, u16_from_le_bytes(&buf[0..2])))
    }
}

impl BinaryDeserializable for u32 {
    open spec fn spec_deserialize(buf: Seq<u8>, version: Version) -> Result<(usize, u32), DeserializeErrorView> {
        if buf.len() < 4 {
            Err(DeserializeErrorView::BufferTooSmall)
        } else {
            Ok((4, spec_u32_from_le_bytes(buf.take(4))))
        }
    }

    fn deserialize(buf: &[u8], _version: Version) -> (r: Result<(usize, u32), BinaryDeserializeError>) {
        if buf.len() < 4 {
            return Err(BinaryDeserializeError::BufferTooSmall);
        }
        Ok((4, u32_from_le_bytes(&buf[0..4])))
    }
}

impl BinaryDeserializable for u64 {
    open spec fn spec_deserialize(buf: Seq<u8>, version: Version) -> Result<(usize, u64), DeserializeErrorView> {
        if buf.len() < 8 {
            Err(DeserializeErrorView::BufferTooSmall)
        } else {
            Ok((8, spec_u64_from_le_bytes(buf.take(8))))
        }
    }

    fn deserialize(buf: &[u8], _version: Version) -> (r: Result<(usize, u64), BinaryDeserializeError>) {
        if buf.len() < 8 {
            return Err(BinaryDeserializeError::BufferTooSmall);
        }
        Ok((8, u64_from_le_bytes(&buf[0..8])))
    }
}

impl BinaryDeserializable for Version {
    open spec fn spec_deserialize(buf: Seq<u8>, version: Version) -> Result<(usize, Version), DeserializeErrorView> {
        if buf.len() < 1 {
            Err(DeserializeErrorView::BufferTooSmall)
        } else {
            match Version::spec_from_u8(buf[0]) {
                Some(v) => Ok((1, v)),
                None => Err(DeserializeErrorView::InvalidVersion),
            }
        }
    }

    fn deserialize(buf: &[u8], version: Version) -> (r: Result<(usize, Version), BinaryDeserializeError>) {
        let raw = match u8::deserialize(buf, version) {
            Ok((_, raw)) => raw,
            Err(e) => return Err(e),
        };
        if raw == 0 {
            Ok((1, Version::V1))
        } else if raw == 1 {
            Ok((1, Version::V2))
        } else {
            Err(BinaryDeserializeError::InvalidVersion)
        }
    }
}

/// Helper for deserializing several objects one after the other from a
/// buffer.
pub struct DeserializeContext<'a> {
    pub buf: &'a [u8],
    pub offset: usize,
    pub version: Version,
}

impl<'a> DeserializeContext<'a> {
    /// The bytes that are still to be read.
    pub open spec fn rest(&self) -> Seq<u8> {
        self.buf@.skip(self.offset as int)
    }

    pub fn new(buf: &'a [u8], version: Version) -> (r: Self)
        ensures
            r.buf@ == buf@,
            r.offset == 0,
            r.version == version,
    {
        Self { buf, offset: 0, version }
    }

    /// Deserialize an object of type `T` from the buffer, advancing the offset
    /// by the bytes it used; on an error the offset stays.
    pub fn deserialize<T: BinaryDeserializable>(&mut self) -> (r: Result<T, BinaryDeserializeError>)
        requires
            old(self).offset <= old(self).buf@.len(),
        ensures
            final(self).buf == old(self).buf,
            final(self).version == old(self).version,
            match T::spec_deserialize(old(self).rest(), old(self).version) {
                Ok((n, v)) => r matches Ok(x) && x@ == v && final(self).offset == old(self).offset + n,
                Err(e) => r matches Err(x) && x@ == e && final(self).offset == old(self).offset,
            },
            final(self).offset <= final(self).buf@.len(),
    {
        let rest = &self.buf[self.offset..self.buf.len()];
        assert(rest@ == self.rest());
        match T::deserialize(rest, self.version) {
            Ok((size, obj)) => {
                self.offset = self.offset + size;
                Ok(obj)
            },
            Err(e) => Err(e),
        }
    }

    /// Reads a `u8`, advancing the offset by one.
    pub fn read_u8(&mut self) -> (r: Result<u8, BinaryDeserializeError>)
        requires
            old(self).offset <= old(self).buf@.len(),
        ensures
            final(self).buf == old(self).buf,
            final(self).version == old(self).version,
            match u8::spec_deserialize(old(self).rest(), old(self).version) {
                Ok((n, v)) => r == Ok::<u8, BinaryDeserializeError>(v) && final(self).offset == old(self).offset + n,
                Err(e) => r matches Err(x) && x@ == e && final(self).offset == old(self).offset,
            },
            final(self).offset <= final(self).buf@.len(),
    {
        self.deserialize::<u8>()
    }

    /// Reads a little-endian `u16`, advancing the offset by two.
    pub fn read_u16(&mut self) -> (r: Result<u16, BinaryDeserializeError>)
        requires
            old(self).offset <= old(self).buf@.len(),
        ensures
            final(self).buf == old(self).buf,
            final(self).version == old(self).version,
            match u16::spec_deserialize(old(self).rest(), old(self).version) {
                Ok((n, v)) => r == Ok::<u16, BinaryDeserializeError>(v) && final(self).offset == old(self).offset + n,
                Err(e) => r matches Err(x) && x@ == e && final(self).offset == old(self).offset,
            },
            final(self).offset <= final(self).buf@.len(),
    {
        self.deserialize::<u16>()
    }

    /// Reads a little-endian `u32`, advancing the offset by four.
    pub fn read_u32(&mut self) -> (r: Result<u32, BinaryDeserializeError>)
        requires
            old(self).offset <= old(self).buf@.len(),
        ensures
            final(self).buf == old(self).buf,
            final(self).version == old(self).version,
            match u32::spec_deserialize(old(self).rest(), old(self).version) {
                Ok((n, v)) => r == Ok::<u32, BinaryDeserializeError>(v) && final(self).offset == old(self).offset + n,
                Err(e) => r matches Err(x) && x@ == e && final(self).offset == old(self).offset,
            },
            final(self).offset <= final(self).buf@.len(),
    {
        self.deserialize::<u32>()
    }

    /// Reads a little-endian `u64`, advancing the offset by eight.
    pub fn read_u64(&mut self) -> (r: Result<u64, BinaryDeserializeError>)
        requires
            old(self).offset <= old(self).buf@.len(),
        ensures
            final(self).buf == old(self).buf,
            final(self).version == old(self).version,
            match u64::spec_deserialize(old(self).rest(), old(self).version) {
                Ok((n, v)) => r == Ok::<u64, BinaryDeserializeError>(v) && final(self).offset == old(self).offset + n,
                Err(e) => r matches Err(x) && x@ == e && final(self).offset == old(self).offset,
            },
            final(self).offset <= final(self).buf@.len(),
    {
        self.deserialize::<u64>()
    }

    /// The total number of bytes deserialized from the start of the buffer.
    pub fn total_offset(&self) -> (r: usize)
        ensures
            r == self.offset,
    {
        self.offset
    }
}

} // verus!
