//! The structure of a block, the unit of data that is written to flash.
//!
//! A block starts with a header, then holds its payload, and the four bytes
//! right after the payload hold the payload's CRC32.

use crate::crc32::{crc32_checksum, Crc32Interface};
use crate::metadata::Metadata;
use crate::wire::{le16, le32, le64, put_u16, put_u32, put_u64, splice};
use crate::{
    result_view, BinaryDeserializable, BinaryDeserializeError, BinarySerializable, BinarySerializeError,
    DeserializeContext, DeserializeErrorView, Version, BLOCK_SIZE,
};
use vstd::bytes::*;
use vstd::prelude::*;

verus! {

/// Size of the block header data in bytes.
pub const HEADER_SIZE: u16 = 20;

/// The type of block.
#[derive(Debug, Clone, Copy, PartialEq, Eq, Structural)]
pub enum BlockType {
    /// A block containing metadata. Encoded as 0.
    Meta,
    /// A block containing data. Encoded as 1.
    Data,
}

impl View for BlockType {
    type V = BlockType;

    open spec fn view(&self) -> BlockType {
        *self
    }
}

impl BlockType {
    /// The byte that encodes this block type.
    pub open spec fn spec_to_u8(self) -> u8 {
        match self {
            BlockType::Meta => 0,
            BlockType::Data => 1,
        }
    }

    /// The block type that a byte encodes, if any.
    pub open spec fn spec_from_u8(value: u8) -> Option<BlockType> {
        if value == 0 {
            Some(BlockType::Meta)
        } else if value == 1 {
            Some(BlockType::Data)
        } else {
            None
        }
    }

    /// The byte that encodes this block type.
    pub fn to_u8(self) -> (r: u8)
        ensures
            r == self.spec_to_u8(),
    {
        match self {
            BlockType::Meta => 0,
            BlockType::Data => 1,
        }
    }
}

impl BinaryDeserializable for BlockType {
    open spec fn spec_deserialize(buf: Seq<u8>, version: Version) -> Result<(usize, BlockType), DeserializeErrorView> {
        if buf.len() < 1 {
            Err(DeserializeErrorView::BufferTooSmall)
        } else {
            match BlockType::spec_from_u8(buf[0]) {
                Some(t) => Ok((1, t)),
                None => Err(DeserializeErrorView::InvalidBlockType),
            }
        }
    }

    fn deserialize(buf: &[u8], version: Version) -> (r: Result<(usize, BlockType), BinaryDeserializeError>) {
        let raw = match u8::deserialize(buf, version) {
            Ok((_, raw)) => raw,
            Err(e) => return Err(e),
        };
        if raw == 0 {
            Ok((1, BlockType::Meta))
        } else if raw == 1 {
            Ok((1, BlockType::Data))
        } else {
            Err(BinaryDeserializeError::InvalidBlockType)
        }
    }
}

/// The header of a block: the very first bytes of the block, which tell the
/// reader what the contents of the block should be.
#[derive(Debug, Clone, PartialEq, Eq, Structural)]
pub struct BlockHeader {
    /// Written as one byte.
    pub version: Version,
    /// Written as one byte.
    pub block_type: BlockType,
    /// Number of valid bytes in the block after the header. Written as two
    /// little-endian bytes.
    pub size: u16,
    /// Index of the block on the flash, written as four little-endian bytes.
    pub block_index: u32,
    /// Absolute timestamp of this block since startup, written as eight
    /// little-endian bytes.
    pub timestamp: u64,
    /// CRC32 of the first sixteen bytes of the header.
    ///
    /// Not used when writing the header: the checksum is calculated then.
    pub header_crc: u32,
}

impl View for BlockHeader {
    type V = BlockHeader;

    open spec fn view(&self) -> BlockHeader {
        *self
    }
}

impl BlockHeader {
    /// The sixteen bytes of the header that its CRC covers.
    pub open spec fn spec_checked_bytes(self) -> Seq<u8> {
        seq![self.version.spec_to_u8(), self.block_type.spec_to_u8()] + le16(self.size) + le32(
            self.block_index,
        ) + le64(self.timestamp)
    }

    /// The twenty bytes that encode the header: the checked bytes followed by
    /// their CRC32, little-endian.
    pub open spec fn spec_encoding(self) -> Seq<u8> {
        self.spec_checked_bytes() + le32(crc32_checksum(self.spec_checked_bytes()))
    }

    /// Serialize the block header into the provided buffer, with the CRC
    /// interface calculating the header's CRC.
    ///
    /// Fails, writing nothing, only if the buffer is shorter than the header.
    pub fn serialize<C: Crc32Interface>(&self, buf: &mut [u8], crc_handler: &mut C) -> (r: Result<usize, BinarySerializeError>)
        ensures
            r is Ok <==> old(buf)@.len() >= HEADER_SIZE,
            r matches Ok(n) ==> n == HEADER_SIZE && final(buf)@ == splice(old(buf)@, 0, self.spec_encoding()),
            r is Err ==> final(buf)@ == old(buf)@,
    {
        if buf.len() < HEADER_SIZE as usize {
            return Err(BinarySerializeError::BufferTooSmall);
        }
        proof {
            crate::wire::lemma_le_lengths();
        }
        let ghost start = buf@;
        buf[0] = self.version.to_u8();
        buf[1] = self.block_type.to_u8();
        put_u16(buf, 2, self.size);
        put_u32(buf, 4, self.block_index);
        put_u64(buf, 8, self.timestamp);
        let checked = &buf[0..16];
        assert(checked@ =~= self.spec_checked_bytes());
        let crc = crc_handler.crc32(checked);
        put_u32(buf, 16, crc);
        assert(buf@ =~= splice(start, 0, self.spec_encoding()));
        Ok(HEADER_SIZE as usize)
    }
}

impl BinaryDeserializable for BlockHeader {
    /// The header is version agnostic: it carries its own version, which the
    /// reader should respect afterwards.
    open spec fn spec_deserialize(buf: Seq<u8>, version: Version) -> Result<(usize, BlockHeader), DeserializeErrorView> {
        if buf.len() < HEADER_SIZE {
            Err(DeserializeErrorView::BufferTooSmall)
        } else {
            match Version::spec_from_u8(buf[0]) {
                None => Err(DeserializeErrorView::InvalidVersion),
                Some(v) => match BlockType::spec_from_u8(buf[1]) {
                    None => Err(DeserializeErrorView::InvalidBlockType),
                    Some(t) => Ok(
                        (
                            HEADER_SIZE as usize,
                            BlockHeader {
                                version: v,
                                block_type: t,
                                size: spec_u16_from_le_bytes(buf.subrange(2, 4)),
                                block_index: spec_u32_from_le_bytes(buf.subrange(4, 8)),
                                timestamp: spec_u64_from_le_bytes(buf.subrange(8, 16)),
                                header_crc: spec_u32_from_le_bytes(buf.subrange(16, 20)),
                            },
                        ),
                    ),
                },
            }
        }
    }

    fn deserialize(buf: &[u8], _version: Version) -> (r: Result<(usize, BlockHeader), BinaryDeserializeError>) {
        if buf.len() < HEADER_SIZE as usize {
            return Err(BinaryDeserializeError::BufferTooSmall);
        }
        let (version_size, version) = match Version::deserialize(buf, Version::LATEST) {
            Ok(x) => x,
            Err(e) => return Err(e),
        };
        let rest = &buf[version_size..buf.len()];
        let mut ctx = DeserializeContext::new(rest, version);
        assert(ctx.rest() =~= buf@.skip(1));
        let block_type: BlockType = match ctx.deserialize() {
            Ok(t) => t,
            Err(e) => return Err(e),
        };
        assert(ctx.rest().take(2) =~= buf@.subrange(2, 4));
        let size = match ctx.read_u16() {
            Ok(x) => x,
            Err(e) => return Err(e),
        };
        assert(ctx.rest().take(4) =~= buf@.subrange(4, 8));
        let block_index = match ctx.read_u32() {
            Ok(x) => x,
            Err(e) => return Err(e),
        };
        assert(ctx.rest().take(8) =~= buf@.subrange(8, 16));
        let timestamp = match ctx.read_u64() {
            Ok(x) => x,
            Err(e) => return Err(e),
        };
        assert(ctx.rest().take(4) =~= buf@.subrange(16, 20));
        let header_crc = match ctx.read_u32() {
            Ok(x) => x,
            Err(e) => return Err(e),
        };
        Ok(
            (
                ctx.total_offset() + version_size,
                BlockHeader { version, block_type, size, block_index, timestamp, header_crc },
            ),
        )
    }
}

/// A block type is one byte: 0 for a metadata block and 1 for a data block.
/// Reading gives back that type from that byte and refuses every other
/// byte, whatever follows it; a header carries its version's byte (0 for
/// V1, 1 for V2) first and its type's byte second.
pub proof fn lemma_block_type_bytes(b: u8, rest: Seq<u8>, version: Version, h: BlockHeader, buf: Seq<u8>)
    ensures
        buf.len() >= HEADER_SIZE && buf[0] <= 1 && buf[1] <= 1 ==> (BlockHeader::spec_deserialize(buf, version) matches Ok(
            (n, read),
        ) && n == HEADER_SIZE && read.version == (if buf[0] == 0 {
            Version::V1
        } else {
            Version::V2
        }) && read.block_type == (if buf[1] == 0 {
            BlockType::Meta
        } else {
            BlockType::Data
        })),
        BlockType::Meta.spec_to_u8() == 0,
        BlockType::Data.spec_to_u8() == 1,
        BlockType::spec_deserialize(seq![b] + rest, version) == if b == 0 {
            Ok::<(usize, BlockType), DeserializeErrorView>((1, BlockType::Meta))
        } else if b == 1 {
            Ok::<(usize, BlockType), DeserializeErrorView>((1, BlockType::Data))
        } else {
            Err::<(usize, BlockType), DeserializeErrorView>(DeserializeErrorView::InvalidBlockType)
        },
        h.spec_encoding()[0] == if h.version == Version::V1 {
            0u8
        } else {
            1u8
        },
        h.spec_encoding()[1] == if h.block_type == BlockType::Meta {
            0u8
        } else {
            1u8
        },
{
    assert((seq![b] + rest)[0] == b);
}

/// The layout of a header's twenty bytes: the version's byte, the block
/// type's byte, the size in two little-endian bytes, the block index in
/// four, the timestamp in eight, and the CRC32 of those first sixteen bytes
/// in four.
pub proof fn lemma_block_header_layout(h: BlockHeader)
    ensures
        h.spec_encoding().len() == HEADER_SIZE,
        h.spec_encoding()[0] == h.version.spec_to_u8(),
        h.spec_encoding()[1] == h.block_type.spec_to_u8(),
        h.spec_encoding().subrange(2, 4) == le16(h.size),
        h.spec_encoding().subrange(4, 8) == le32(h.block_index),
        h.spec_encoding().subrange(8, 16) == le64(h.timestamp),
        h.spec_encoding().subrange(16, 20) == le32(crc32_checksum(h.spec_encoding().take(16))),
{
    crate::wire::lemma_le_lengths();
    let e = h.spec_encoding();
    assert(e.subrange(2, 4) =~= le16(h.size));
    assert(e.subrange(4, 8) =~= le32(h.block_index));
    assert(e.subrange(8, 16) =~= le64(h.timestamp));
    assert(e.take(16) =~= h.spec_checked_bytes());
    assert(e.subrange(16, 20) =~= le32(crc32_checksum(h.spec_checked_bytes())));
}

/// Reading back a serialized header gives the header, with the CRC that was
/// calculated for it.
pub proof fn lemma_block_header_round_trip(h: BlockHeader, version: Version)
    ensures
        BlockHeader::spec_deserialize(h.spec_encoding(), version) == Ok::<
            (usize, BlockHeader),
            DeserializeErrorView,
        >(
            (
                HEADER_SIZE as usize,
                BlockHeader { header_crc: crc32_checksum(h.spec_checked_bytes()), ..h },
            ),
        ),
{
    crate::wire::lemma_le_lengths();
    let e = h.spec_encoding();
    let crc = crc32_checksum(h.spec_checked_bytes());
    assert(e.subrange(2, 4) =~= le16(h.size));
    assert(e.subrange(4, 8) =~= le32(h.block_index));
    assert(e.subrange(8, 16) =~= le64(h.timestamp));
    assert(e.subrange(16, 20) =~= le32(crc));
    assert(e[0] == h.version.spec_to_u8());
    assert(e[1] == h.block_type.spec_to_u8());
}

/// A serialized header's last four bytes hold the CRC32 of the bytes before
/// them, so it passes [`Crc32Interface::validate_crc32`].
pub proof fn lemma_block_header_crc_validates(h: BlockHeader)
    ensures
        crate::crc32::ends_with_valid_crc(h.spec_encoding()),
{
    crate::crc32::lemma_appended_crc_validates(h.spec_checked_bytes());
}

/// The number of bytes of a block in use: the header and the data written
/// so far, always leaving room for the CRC at the end of the block.
struct BlockUsed {
    n: u16,
}

impl BlockUsed {
    #[verifier::type_invariant]
    spec fn fits(self) -> bool {
        HEADER_SIZE <= self.n && self.n + 4 <= BLOCK_SIZE
    }
}

/// Wrapper around a mutable reference to a block buffer which allows writing
/// data to the block.
///
/// The bytes in use count the header and the data written so far; the
/// header is written again, complete, by [`BlockWriter::finish`], once the
/// size of the data and the CRC are known.
pub struct BlockWriter<'a> {
    buf: &'a mut [u8; BLOCK_SIZE],
    used: BlockUsed,
    /// The block header that will be written to the block when finished.
    header: BlockHeader,
}

impl<'a> BlockWriter<'a> {
    /// The bytes of the block as the writer holds them.
    pub closed spec fn spec_buf(self) -> Seq<u8> {
        self.buf@
    }

    /// The buffer the writer writes into.
    pub closed spec fn spec_buf_ref(self) -> &'a mut [u8; BLOCK_SIZE] {
        self.buf
    }

    /// The number of bytes in use: the header's and the data's.
    pub closed spec fn spec_used(self) -> int {
        self.used.n as int
    }

    /// The header that will be written when the block is finished.
    pub closed spec fn spec_header(self) -> BlockHeader {
        self.header
    }

    /// The data written to the block so far.
    pub open spec fn spec_data(self) -> Seq<u8> {
        self.spec_buf().subrange(HEADER_SIZE as int, self.spec_used())
    }

    /// The bytes of the block once finished: the header, with the data's
    /// size and its own CRC, then the data as written, then the data's CRC.
    pub open spec fn spec_finished(self) -> Seq<u8> {
        let size = (self.spec_used() - HEADER_SIZE) as u16;
        let header = BlockHeader { size, ..self.spec_header() };
        let data = self.spec_data();
        splice(
            splice(self.spec_buf(), 0, header.spec_encoding()),
            self.spec_used(),
            le32(crc32_checksum(data)),
        )
    }

    /// Creates a block writer with the given buffer and header.
    ///
    /// Writes the header to the start of the buffer with a size of zero,
    /// all but its CRC, which takes a CRC calculator: [`BlockWriter::finish`]
    /// writes the header again, complete, with the size of the data. The
    /// header's bytes count as used.
    pub fn new(buf: &'a mut [u8; BLOCK_SIZE], header: BlockHeader) -> (r: Self)
        ensures
            r.spec_buf() == splice(old(buf)@, 0, BlockHeader { size: 0, ..header }.spec_checked_bytes()),
            final(r.spec_buf_ref())@ == final(buf)@,
            r.spec_used() == HEADER_SIZE,
            r.spec_header() == header,
            r.spec_data() == Seq::<u8>::empty(),
    {
        let ghost start = buf@;
        proof {
            crate::wire::lemma_le_lengths();
        }
        buf[0] = header.version.to_u8();
        buf[1] = header.block_type.to_u8();
        put_u16(buf, 2, 0);
        put_u32(buf, 4, header.block_index);
        put_u64(buf, 8, header.timestamp);
        assert(buf@ =~= splice(start, 0, BlockHeader { size: 0, ..header }.spec_checked_bytes()));
        let r = Self { buf, used: BlockUsed { n: HEADER_SIZE }, header };
        assert(r.spec_data() =~= Seq::<u8>::empty());
        r
    }

    /// Writes some data to the block, right after what was written before.
    ///
    /// Fails, writing nothing, if there is not enough space in the block.
    pub fn write(&mut self, data: &[u8]) -> (r: Result<(), BinarySerializeError>)
        ensures
            final(final(self).spec_buf_ref())@ == final(old(self).spec_buf_ref())@,
            final(self).spec_header() == old(self).spec_header(),
            r is Ok <==> data@.len() + old(self).spec_used() + 4 <= BLOCK_SIZE,
            r is Ok ==> final(self).spec_buf() == splice(old(self).spec_buf(), old(self).spec_used(), data@)
                && final(self).spec_used() == old(self).spec_used() + data@.len(),
            r is Ok ==> final(self).spec_data() == old(self).spec_data() + data@,
            r is Err ==> final(self).spec_buf() == old(self).spec_buf() && final(self).spec_used() == old(self).spec_used(),
    {
        proof {
            use_type_invariant(&self.used);
        }
        if data.len() > self.space() {
            return Err(BinarySerializeError::BufferTooSmall);
        }
        let ghost before = self.buf@;
        let start = self.used.n as usize;
        crate::wire::copy_into(self.buf, start, data);
        self.used = BlockUsed { n: self.used.n + data.len() as u16 };
        assert(self.spec_data() =~= before.subrange(HEADER_SIZE as int, start as int) + data@);
        Ok(())
    }

    /// The number of data bytes that can still be written to the block,
    /// leaving room for the CRC at the end.
    pub fn space(&self) -> (r: usize)
        ensures
            r == BLOCK_SIZE - self.spec_used() - 4,
            HEADER_SIZE <= self.spec_used(),
            self.spec_used() + 4 <= BLOCK_SIZE,
    {
        proof {
            use_type_invariant(&self.used);
        }
        BLOCK_SIZE.saturating_sub(self.used.n as usize + 4)
    }

    /// Makes this a metadata block and writes the metadata after what was
    /// written before.
    ///
    /// Fails if the metadata does not fit in the space left, having then
    /// written a prefix of its encoding into that space; the block type is
    /// set to metadata either way.
    pub fn write_meta_block(&mut self, meta: &Metadata) -> (r: Result<(), BinarySerializeError>)
        ensures
            final(final(self).spec_buf_ref())@ == final(old(self).spec_buf_ref())@,
            final(self).spec_header() == (BlockHeader { block_type: BlockType::Meta, ..old(self).spec_header() }),
            r is Ok <==> meta.spec_encoding().len() + old(self).spec_used() + 4 <= BLOCK_SIZE,
            r is Ok ==> final(self).spec_buf() == splice(old(self).spec_buf(), old(self).spec_used(), meta.spec_encoding())
                && final(self).spec_used() == old(self).spec_used() + meta.spec_encoding().len(),
            r is Ok ==> final(self).spec_data() == old(self).spec_data() + meta.spec_encoding(),
            r is Err ==> final(self).spec_used() == old(self).spec_used()
                && final(self).spec_buf().take(old(self).spec_used()) == old(self).spec_buf().take(old(self).spec_used())
                && final(self).spec_buf().skip(BLOCK_SIZE - 4) == old(self).spec_buf().skip(BLOCK_SIZE - 4)
                && crate::wire::holds_prefix_of(
                    old(self).spec_buf().subrange(old(self).spec_used(), BLOCK_SIZE - 4),
                    final(self).spec_buf().subrange(old(self).spec_used(), BLOCK_SIZE - 4),
                    meta.spec_encoding(),
                ),
    {
        proof {
            use_type_invariant(&self.used);
        }
        self.header.block_type = BlockType::Meta;
        let used = self.used.n as usize;
        let ghost start = self.buf@;
        let ghost window_after: Seq<u8>;
        let ghost tail_after: Seq<u8>;
        let result = {
            let (head, rest) = self.buf.split_at_mut(used);
            let (window, tail) = rest.split_at_mut(BLOCK_SIZE - 4 - used);
            assert(window@ =~= start.subrange(used as int, BLOCK_SIZE - 4));
            let res = meta.serialize(window);
            proof {
                window_after = window@;
                tail_after = tail@;
            }
            res
        };
        assert(self.buf@ == start.take(used as int) + (window_after + tail_after));
        assert(tail_after == start.skip(BLOCK_SIZE - 4));
        match result {
            Ok(meta_size) => {
                assert(self.buf@ =~= splice(start, used as int, meta.spec_encoding()));
                self.used = BlockUsed { n: self.used.n + meta_size as u16 };
                assert(self.spec_data() =~= start.subrange(HEADER_SIZE as int, used as int) + meta.spec_encoding());
                Ok(())
            },
            Err(e) => {
                assert(self.buf@.take(used as int) =~= start.take(used as int));
                assert(self.buf@.skip(BLOCK_SIZE - 4) =~= start.skip(BLOCK_SIZE - 4));
                assert(self.buf@.subrange(used as int, BLOCK_SIZE - 4) =~= window_after);
                Err(e)
            },
        }
    }

    /// Finishes writing to the block and hands back the buffer.
    ///
    /// Writes the header, with the number of valid content bytes, and the CRC
    /// of the content right after it.
    pub fn finish<T: Crc32Interface>(self, crc_interface: &mut T) -> (r: &'a mut [u8; BLOCK_SIZE])
        ensures
            r@ == self.spec_finished(),
            final(r)@ == final(self.spec_buf_ref())@,
            // What a reader checks: the header reads back with the data's size
            // and its CRC holds, and the data is followed by its own CRC.
            BlockHeader::spec_deserialize(r@, Version::LATEST) matches Ok((n, h)) && n == HEADER_SIZE
                && h.size == self.spec_used() - HEADER_SIZE && h.version == self.spec_header().version
                && h.block_type == self.spec_header().block_type && h.block_index == self.spec_header().block_index
                && h.timestamp == self.spec_header().timestamp,
            crate::crc32::ends_with_valid_crc(r@.take(HEADER_SIZE as int)),
            crate::crc32::ends_with_valid_crc(r@.subrange(HEADER_SIZE as int, self.spec_used() + 4)),
            r@.subrange(HEADER_SIZE as int, self.spec_used()) == self.spec_data(),
            r@.skip(self.spec_used() + 4) == self.spec_buf().skip(self.spec_used() + 4),
    {
        proof {
            use_type_invariant(&self.used);
        }
        let BlockWriter { buf, used, header } = self;
        let used = used.n;
        let mut header = header;
        header.size = used - HEADER_SIZE;
        let ghost start = buf@;
        // The buffer holds a whole block, so the header always fits.
        let _ = header.serialize(buf, crc_interface);
        proof {
            crate::wire::lemma_le_lengths();
        }
        assert(buf@.subrange(HEADER_SIZE as int, used as int) =~= start.subrange(HEADER_SIZE as int, used as int));
        let start_of_data = HEADER_SIZE as usize;
        let end_of_data = HEADER_SIZE as usize + header.size as usize;
        let data = &buf[start_of_data..end_of_data];
        let crc = crc_interface.crc32(data);
        put_u32(buf, end_of_data, crc);
        proof {
            lemma_finished_block(start, used as int, header);
            assert(buf@.skip(used + 4) =~= start.skip(used + 4));
        }
        buf
    }
}

/// The facts a reader relies on, of the bytes of a finished block: `buf`
/// with `header` written at its start and, after the data that ends at
/// `used`, the data's CRC.
proof fn lemma_finished_block(buf: Seq<u8>, used: int, header: BlockHeader)
    requires
        buf.len() == BLOCK_SIZE,
        HEADER_SIZE <= used,
        used + 4 <= BLOCK_SIZE,
    ensures
        ({
            let data = buf.subrange(HEADER_SIZE as int, used);
            let fin = splice(splice(buf, 0, header.spec_encoding()), used, le32(crc32_checksum(data)));
            &&& BlockHeader::spec_deserialize(fin, Version::LATEST) == Ok::<
                (usize, BlockHeader),
                DeserializeErrorView,
            >((HEADER_SIZE as usize, BlockHeader { header_crc: crc32_checksum(header.spec_checked_bytes()), ..header }))
            &&& crate::crc32::ends_with_valid_crc(fin.take(HEADER_SIZE as int))
            &&& crate::crc32::ends_with_valid_crc(fin.subrange(HEADER_SIZE as int, used + 4))
            &&& fin.subrange(HEADER_SIZE as int, used) == data
        }),
{
    crate::wire::lemma_le_lengths();
    let data = buf.subrange(HEADER_SIZE as int, used);
    let enc = header.spec_encoding();
    let fin = splice(splice(buf, 0, enc), used, le32(crc32_checksum(data)));
    assert(fin.take(HEADER_SIZE as int) =~= enc);
    lemma_block_header_round_trip(header, Version::LATEST);
    lemma_block_header_crc_validates(header);
    assert(BlockHeader::spec_deserialize(fin, Version::LATEST) == BlockHeader::spec_deserialize(enc, Version::LATEST)) by {
        assert(fin.subrange(2, 4) =~= enc.subrange(2, 4));
        assert(fin.subrange(4, 8) =~= enc.subrange(4, 8));
        assert(fin.subrange(8, 16) =~= enc.subrange(8, 16));
        assert(fin.subrange(16, 20) =~= enc.subrange(16, 20));
    }
    assert(fin.subrange(HEADER_SIZE as int, used) =~= data);
    assert(fin.subrange(HEADER_SIZE as int, used + 4) =~= data + le32(crc32_checksum(data)));
    crate::crc32::lemma_appended_crc_validates(data);
}

} // verus!
