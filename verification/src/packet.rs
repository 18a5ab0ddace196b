//! Packets: a one byte ID, a two byte little-endian timestamp relative to the
//! previous packet, and the packet's values as its definition lists them.
//!
//! Values of a byte or more are written byte aligned and little-endian.
//! Consecutive booleans are packed into bytes, eight to a byte: each new one
//! is shifted in at the low end, so within a byte the first boolean written
//! is the highest of the bits used.

use crate::metadata::{
    is_first_with_id, FieldName, PacketDef, PacketDefView, ValueDef, ValueDefView, ValueDefs,
    ValueKind,
};
use crate::value::PacketValue;
use crate::wire::{copy_into, le16, le32, le64, splice};
use crate::{BinaryDeserializeError, BinarySerializeError};
use vstd::arithmetic::power2::pow2;
use vstd::bytes::*;
use vstd::prelude::*;

verus! {

pub type PacketID = u8;

pub type PacketTimestamp = u16;

/// The size of a packet's header: one byte of ID and two bytes of
/// timestamp.
pub const PACKET_HEADER_SIZE: usize = 3;

/// Reserved packet ID for timesync packets.
pub const TIME_SYNC_PACKET_ID: PacketID = 0;

/// The packet definition that must be included for the time sync packet:
/// "timesync", with one `U64` value "time_us".
pub fn time_sync_packet_def() -> (r: PacketDef)
    ensures
        r@.id == TIME_SYNC_PACKET_ID,
        r@.name == seq![116u8, 105, 109, 101, 115, 121, 110, 99],
        !r@.log_to_terminal,
        r@.values == seq![
            ValueDefView { name: seq![116u8, 105, 109, 101, 95, 117, 115], kind: ValueKind::U64, count: 1 },
        ],
{
    let name = FieldName::from_array([116u8, 105, 109, 101, 115, 121, 110, 99]);
    let value_name = FieldName::from_array([116u8, 105, 109, 101, 95, 117, 115]);
    let mut values = ValueDefs::new();
    // Empty storage always has room for the one definition.
    let _ = values.push(ValueDef { name: value_name, kind: ValueKind::U64, count: 1 });
    assert(name@ =~= seq![116u8, 105, 109, 101, 115, 121, 110, 99]);
    PacketDef { id: TIME_SYNC_PACKET_ID, name, log_to_terminal: false, values }
}

/// The header of a packet.
#[derive(Debug, Clone, Copy, PartialEq, Eq, Structural)]
pub struct PacketHeader {
    /// The ID of the packet.
    pub id: PacketID,
    /// The time since the previous packet, or since the start of the block
    /// for the first packet of a block.
    pub timestamp: PacketTimestamp,
}

impl PacketHeader {
    pub fn new(id: PacketID, timestamp: PacketTimestamp) -> (r: Self)
        ensures
            r.id == id,
            r.timestamp == timestamp,
    {
        PacketHeader { id, timestamp }
    }

    /// The three bytes that encode the header.
    pub open spec fn spec_encoding(self) -> Seq<u8> {
        seq![self.id] + le16(self.timestamp)
    }
}

/// `b` with the bit for `val` shifted in at the low end.
pub open spec fn push_bit(b: u8, val: bool) -> u8 {
    (b << 1u8) | (if val {
        1u8
    } else {
        0u8
    })
}

/// The kind of a value.
pub open spec fn kind_of(v: PacketValue) -> ValueKind {
    match v {
        PacketValue::U8(_) => ValueKind::U8,
        PacketValue::U16(_) => ValueKind::U16,
        PacketValue::U32(_) => ValueKind::U32,
        PacketValue::U64(_) => ValueKind::U64,
        PacketValue::I8(_) => ValueKind::I8,
        PacketValue::I16(_) => ValueKind::I16,
        PacketValue::I32(_) => ValueKind::I32,
        PacketValue::F32(_) => ValueKind::F32,
        PacketValue::Bool(_) => ValueKind::Bool,
    }
}

/// The bytes that a value other than a boolean is written as: little-endian,
/// a signed value as the unsigned integer with the same bits, a float as its
/// bits.
pub open spec fn value_bytes(v: PacketValue) -> Seq<u8> {
    match v {
        PacketValue::U8(x) => seq![x],
        PacketValue::U16(x) => le16(x),
        PacketValue::U32(x) => le32(x),
        PacketValue::U64(x) => le64(x),
        PacketValue::I8(x) => seq![x as u8],
        PacketValue::I16(x) => le16(x as u16),
        PacketValue::I32(x) => le32(x as u32),
        PacketValue::F32(x) => le32(x),
        PacketValue::Bool(b) => seq![
            if b {
                1u8
            } else {
                0u8
            },
        ],
    }
}

/// What writing `v` does to what a writer has written: its bytes, the
/// header's included, and how many bits of the last byte hold packed
/// booleans.
///
/// A boolean is shifted into the last byte while that byte holds one to
/// seven of them, and otherwise into a new zero byte. Any other value is
/// appended and ends the packing.
pub open spec fn write_step(s: (Seq<u8>, u8), v: PacketValue) -> (Seq<u8>, u8) {
    match v {
        PacketValue::Bool(b) => if s.1 == 0 {
            (s.0.push(push_bit(0u8, b)), 1u8)
        } else {
            (
                s.0.update(s.0.len() - 1, push_bit(s.0.last(), b)),
                if s.1 + 1 == 8 {
                    0u8
                } else {
                    (s.1 + 1) as u8
                },
            )
        },
        _ => (s.0 + value_bytes(v), 0u8),
    }
}

/// What writing `vals`, one after the other, does to what a writer has
/// written.
pub open spec fn write_from(s: (Seq<u8>, u8), vals: Seq<PacketValue>) -> (Seq<u8>, u8)
    decreases vals.len(),
{
    if vals.len() == 0 {
        s
    } else {
        write_step(write_from(s, vals.drop_last()), vals.last())
    }
}

/// Writes a packet into a buffer.
///
/// `used` counts the bytes written, the header included. While booleans are
/// being packed, the byte they go to is the last one counted, and
/// `sub_byte_bits_used` says how many of its bits hold booleans.
pub struct PacketWriter<'a> {
    pub(crate) buf: &'a mut [u8],
    pub(crate) used: usize,
    pub(crate) sub_byte_bits_used: u8,
}

impl<'a> PacketWriter<'a> {
    /// The header is counted as used, nothing beyond the buffer is, and the
    /// last byte used holds at most seven packed booleans.
    #[verifier::type_invariant]
    pub(crate) closed spec fn within(self) -> bool {
        &&& PACKET_HEADER_SIZE <= self.used <= self.buf@.len()
        &&& self.sub_byte_bits_used < 8
    }

    /// What this writer has written: the bytes counted as used, and how many
    /// bits of the last of them hold packed booleans.
    pub open spec fn spec_written(&self) -> (Seq<u8>, u8) {
        (self.spec_buf().take(self.spec_used()), self.spec_bits())
    }

    /// The number of bytes written, the header's included.
    pub closed spec fn spec_used(&self) -> int {
        self.used as int
    }

    /// How many bits of the last byte written hold packed booleans.
    pub closed spec fn spec_bits(&self) -> u8 {
        self.sub_byte_bits_used
    }

    /// The bytes of the buffer as the writer holds them.
    pub closed spec fn spec_buf(&self) -> Seq<u8> {
        self.buf@
    }

    /// The buffer the writer writes into.
    pub closed spec fn spec_buf_ref(&self) -> &'a mut [u8] {
        self.buf
    }

    /// Creates a writer that writes the header at the start of `buf`.
    ///
    /// Returns `None`, writing nothing, if the buffer is too small for the
    /// header.
    pub fn new(buf: &'a mut [u8], header: PacketHeader) -> (r: Option<Self>)
        ensures
            r is Some <==> old(buf)@.len() >= PACKET_HEADER_SIZE,
            r matches Some(w) ==> w.spec_buf() == splice(old(buf)@, 0, header.spec_encoding()) && w.spec_used()
                == PACKET_HEADER_SIZE && w.spec_bits() == 0 && final(w.spec_buf_ref())@ == final(buf)@,
            r matches Some(w) ==> w.spec_written() == (header.spec_encoding(), 0u8),
            r is None ==> final(buf)@ == old(buf)@,
    {
        if buf.len() < PACKET_HEADER_SIZE {
            return None;
        }
        let ghost start = buf@;
        buf[0] = header.id;
        crate::wire::put_u16(buf, 1, header.timestamp);
        proof {
            crate::wire::lemma_le_lengths();
        }
        assert(buf@ =~= splice(start, 0, header.spec_encoding()));
        assert(buf@.take(PACKET_HEADER_SIZE as int) =~= header.spec_encoding());
        Some(PacketWriter { buf, used: PACKET_HEADER_SIZE, sub_byte_bits_used: 0 })
    }

    /// Sets the timestamp of this packet.
    pub fn set_timestamp(&mut self, timestamp: u16)
        ensures
            final(self).spec_buf() == splice(old(self).spec_buf(), 1, le16(timestamp)),
            final(self).spec_used() == old(self).spec_used(),
            final(self).spec_bits() == old(self).spec_bits(),
            final(final(self).spec_buf_ref())@ == final(old(self).spec_buf_ref())@,
            final(self).spec_written() == (
                splice(old(self).spec_written().0, 1, le16(timestamp)),
                old(self).spec_written().1,
            ),
    {
        proof {
            use_type_invariant(&*self);
        }
        let ghost before = self.buf@;
        let bytes = u16_to_le_bytes(timestamp);
        proof {
            crate::wire::lemma_le_lengths();
        }
        self.buf[1] = bytes[0];
        self.buf[2] = bytes[1];
        proof {
            assert(self.buf@ =~= splice(before, 1, le16(timestamp)));
            assert(self.buf@.take(self.used as int) =~= splice(before.take(self.used as int), 1, le16(timestamp)));
        }
    }

    /// True if the last byte written holds 1 to 7 packed booleans.
    pub fn has_sub_byte_values(&self) -> (r: bool)
        ensures
            r == (self.spec_bits() > 0),
    {
        self.sub_byte_bits_used > 0
    }

    /// The number of bytes of space remaining.
    pub fn space(&self) -> (r: usize)
        ensures
            r == self.spec_buf().len() - self.spec_used(),
            PACKET_HEADER_SIZE <= self.spec_used() <= self.spec_buf().len(),
            self.spec_bits() < 8,
    {
        proof {
            use_type_invariant(self);
        }
        self.buf.len().saturating_sub(self.used)
    }

    /// Ends the packing of booleans into the last byte written.
    fn commit_to_the_bit(&mut self)
        ensures
            final(self).spec_buf() == old(self).spec_buf(),
            final(self).spec_used() == old(self).spec_used(),
            final(self).spec_bits() == 0,
            final(final(self).spec_buf_ref())@ == final(old(self).spec_buf_ref())@,
    {
        proof {
            use_type_invariant(&*self);
        }
        self.sub_byte_bits_used = 0;
    }

    /// Writes a single byte, or fails if out of space, writing nothing.
    ///
    /// Either way the packing of booleans into the last byte ends.
    pub fn write_u8(&mut self, val: u8) -> (r: Result<(), BinarySerializeError>)
        ensures
            final(self).spec_bits() == 0,
            final(final(self).spec_buf_ref())@ == final(old(self).spec_buf_ref())@,
            r is Ok <==> old(self).spec_used() < old(self).spec_buf().len(),
            r is Ok ==> final(self).spec_buf() == old(self).spec_buf().update(old(self).spec_used(), val)
                && final(self).spec_used() == old(self).spec_used() + 1,
            r is Ok ==> final(self).spec_written() == write_step(old(self).spec_written(), PacketValue::U8(val)),
            r is Err ==> final(self).spec_buf() == old(self).spec_buf() && final(self).spec_used() == old(self).spec_used(),
    {
        self.commit_to_the_bit();
        proof {
            use_type_invariant(&*self);
        }
        if self.space() < 1 {
            return Err(BinarySerializeError::BufferTooSmall);
        }
        let ghost before = self.buf@.take(self.used as int);
        self.buf[self.used] = val;
        self.used = self.used + 1;
        assert(self.buf@.take(self.used as int) =~= before + seq![val]);
        Ok(())
    }

    /// Writes the bytes of `slice`, or fails if out of space, writing
    /// nothing.
    ///
    /// Either way the packing of booleans into the last byte ends.
    pub fn write_slice(&mut self, slice: &[u8]) -> (r: Result<(), BinarySerializeError>)
        ensures
            final(self).spec_bits() == 0,
            final(final(self).spec_buf_ref())@ == final(old(self).spec_buf_ref())@,
            r is Ok <==> old(self).spec_used() + slice@.len() <= old(self).spec_buf().len(),
            r is Ok ==> final(self).spec_buf() == splice(old(self).spec_buf(), old(self).spec_used(), slice@)
                && final(self).spec_used() == old(self).spec_used() + slice@.len(),
            r is Err ==> final(self).spec_buf() == old(self).spec_buf() && final(self).spec_used() == old(self).spec_used(),
    {
        self.commit_to_the_bit();
        proof {
            use_type_invariant(&*self);
        }
        if self.space() < slice.len() {
            return Err(BinarySerializeError::BufferTooSmall);
        }
        let blen = self.buf.len();
        let n = slice.len();
        let at = self.used;
        let ghost start = self.buf@;
        let mut i: usize = 0;
        while i < n
            invariant
                0 <= i <= n,
                n == slice@.len(),
                at + n <= blen,
                blen == self.buf@.len(),
                at == self.used,
                PACKET_HEADER_SIZE <= at,
                start.len() == blen,
                self.sub_byte_bits_used == 0,
                final(self.buf)@ == final(old(self).buf)@,
                self.buf@ == splice(start, at as int, slice@.take(i as int)),
            decreases n - i,
        {
            self.buf[at + i] = slice[i];
            assert(self.buf@ =~= splice(start, at as int, slice@.take(i + 1)));
            i = i + 1;
        }
        assert(slice@.take(n as int) =~= slice@);
        self.used = at + n;
        Ok(())
    }

    /// Writes `val` little-endian, as [`PacketWriter::write_slice`] does.
    pub fn write_u16(&mut self, val: u16) -> (r: Result<(), BinarySerializeError>)
        ensures
            final(self).spec_bits() == 0,
            final(final(self).spec_buf_ref())@ == final(old(self).spec_buf_ref())@,
            r is Ok <==> old(self).spec_used() + 2 <= old(self).spec_buf().len(),
            r is Ok ==> final(self).spec_buf() == splice(old(self).spec_buf(), old(self).spec_used(), le16(val))
                && final(self).spec_used() == old(self).spec_used() + 2,
            r is Ok ==> final(self).spec_written() == write_step(old(self).spec_written(), PacketValue::U16(val)),
            r is Err ==> final(self).spec_buf() == old(self).spec_buf() && final(self).spec_used() == old(self).spec_used(),
    {
        let bytes = u16_to_le_bytes(val);
        proof {
            crate::wire::lemma_le_lengths();
        }
        let ghost before = self.buf@;
        let ghost at = self.used as int;
        let r = self.write_slice(bytes.as_slice());
        proof {
            if r is Ok {
                crate::wire::lemma_splice_take(before, at, bytes@);
            }
        }
        r
    }

    /// Writes `val` little-endian, as [`PacketWriter::write_slice`] does.
    pub fn write_u32(&mut self, val: u32) -> (r: Result<(), BinarySerializeError>)
        ensures
            final(self).spec_bits() == 0,
            final(final(self).spec_buf_ref())@ == final(old(self).spec_buf_ref())@,
            r is Ok <==> old(self).spec_used() + 4 <= old(self).spec_buf().len(),
            r is Ok ==> final(self).spec_buf() == splice(old(self).spec_buf(), old(self).spec_used(), le32(val))
                && final(self).spec_used() == old(self).spec_used() + 4,
            r is Ok ==> final(self).spec_written() == write_step(old(self).spec_written(), PacketValue::U32(val)),
            r is Err ==> final(self).spec_buf() == old(self).spec_buf() && final(self).spec_used() == old(self).spec_used(),
    {
        let bytes = u32_to_le_bytes(val);
        proof {
            crate::wire::lemma_le_lengths();
        }
        let ghost before = self.buf@;
        let ghost at = self.used as int;
        let r = self.write_slice(bytes.as_slice());
        proof {
            if r is Ok {
                crate::wire::lemma_splice_take(before, at, bytes@);
            }
        }
        r
    }

    /// Writes `val` little-endian, as [`PacketWriter::write_slice`] does.
    pub fn write_u64(&mut self, val: u64) -> (r: Result<(), BinarySerializeError>)
        ensures
            final(self).spec_bits() == 0,
            final(final(self).spec_buf_ref())@ == final(old(self).spec_buf_ref())@,
            r is Ok <==> old(self).spec_used() + 8 <= old(self).spec_buf().len(),
            r is Ok ==> final(self).spec_buf() == splice(old(self).spec_buf(), old(self).spec_used(), le64(val))
                && final(self).spec_used() == old(self).spec_used() + 8,
            r is Ok ==> final(self).spec_written() == write_step(old(self).spec_written(), PacketValue::U64(val)),
            r is Err ==> final(self).spec_buf() == old(self).spec_buf() && final(self).spec_used() == old(self).spec_used(),
    {
        let bytes = u64_to_le_bytes(val);
        proof {
            crate::wire::lemma_le_lengths();
        }
        let ghost before = self.buf@;
        let ghost at = self.used as int;
        let r = self.write_slice(bytes.as_slice());
        proof {
            if r is Ok {
                crate::wire::lemma_splice_take(before, at, bytes@);
            }
        }
        r
    }

    /// Writes a boolean, packed with the booleans written just before it.
    ///
    /// When no byte is partly filled, a new zero byte is claimed first; that
    /// is the only way this can fail, writing nothing, for want of space.
    /// The bit is shifted in at the low end of the last byte, and after the
    /// eighth bit the byte is full.
    pub fn write_bool(&mut self, val: bool) -> (r: Result<(), BinarySerializeError>)
        ensures
            final(final(self).spec_buf_ref())@ == final(old(self).spec_buf_ref())@,
            r is Err <==> old(self).spec_bits() == 0 && old(self).spec_used() == old(self).spec_buf().len(),
            r is Err ==> final(self).spec_buf() == old(self).spec_buf() && final(self).spec_used() == old(self).spec_used()
                && final(self).spec_bits() == 0,
            r is Ok ==> ({
                let fresh = old(self).spec_bits() == 0;
                let used = if fresh {
                    old(self).spec_used() + 1
                } else {
                    old(self).spec_used()
                };
                let last = if fresh {
                    0u8
                } else {
                    old(self).spec_buf()[used - 1]
                };
                &&& final(self).spec_used() == used
                &&& final(self).spec_buf() == old(self).spec_buf().update(used - 1, push_bit(last, val))
                &&& final(self).spec_bits() == if old(self).spec_bits() + 1 == 8 {
                    0
                } else {
                    old(self).spec_bits() + 1
                }
            }),
            r is Ok ==> final(self).spec_written() == write_step(old(self).spec_written(), PacketValue::Bool(val)),
    {
        proof {
            use_type_invariant(&*self);
        }
        if !self.has_sub_byte_values() {
            match self.write_u8(0) {
                Ok(()) => {},
                Err(e) => return Err(e),
            }
        }
        proof {
            use_type_invariant(&*self);
        }
        let at = self.used - 1;
        let bit: u8 = if val {
            1
        } else {
            0
        };
        let ghost before = self.buf@.take(self.used as int);
        self.buf[at] = (self.buf[at] << 1u8) | bit;
        assert(self.buf@.take(self.used as int) =~= before.update(at as int, push_bit(before.last(), val)));
        self.sub_byte_bits_used = if self.sub_byte_bits_used + 1 == 8 {
            0
        } else {
            self.sub_byte_bits_used + 1
        };
        Ok(())
    }
}

// ---------------------------------------------------------------------------
// Reading.
// ---------------------------------------------------------------------------

/// One read that decoding a packet's values makes.
#[derive(Debug, Clone, Copy, PartialEq, Eq, Structural)]
pub enum ReadStep {
    /// Reads one value of the kind.
    Value(ValueKind),
    /// Reads a byte and takes from it that many packed booleans.
    Bits(u8),
}

/// The index just past the run of `Bool` definitions that starts at `i`.
pub open spec fn bool_run_end(vs: Seq<ValueDefView>, i: int) -> int
    decreases vs.len() - i,
{
    if 0 <= i < vs.len() && vs[i].kind == ValueKind::Bool {
        bool_run_end(vs, i + 1)
    } else {
        i
    }
}

/// The number of booleans that the run of `Bool` definitions starting at
/// `i` defines.
pub open spec fn bool_run_total(vs: Seq<ValueDefView>, i: int) -> int
    decreases vs.len() - i,
{
    if 0 <= i < vs.len() && vs[i].kind == ValueKind::Bool {
        vs[i].count + bool_run_total(vs, i + 1)
    } else {
        0
    }
}

/// The reads of `total` packed booleans: full bytes of eight, then the rest.
pub open spec fn bit_chunks(total: int) -> Seq<ReadStep>
    decreases total,
{
    if total <= 0 {
        Seq::empty()
    } else if total <= 8 {
        seq![ReadStep::Bits(total as u8)]
    } else {
        seq![ReadStep::Bits(8)] + bit_chunks(total - 8)
    }
}

pub proof fn lemma_bool_run_end_bounds(vs: Seq<ValueDefView>, i: int)
    requires
        0 <= i,
    ensures
        i <= bool_run_end(vs, i),
        i <= vs.len() ==> bool_run_end(vs, i) <= vs.len(),
    decreases vs.len() - i,
{
    if 0 <= i < vs.len() && vs[i].kind == ValueKind::Bool {
        lemma_bool_run_end_bounds(vs, i + 1);
    }
}

/// The reads that decoding the values defined by `vs` from index `i` on
/// makes, or `None` when a definition that starts a read has a count of
/// zero, which the decoder refuses.
///
/// A definition that is not `Bool` is read `count` times. A run of `Bool`
/// definitions is read as one stream of packed booleans: eight to a byte,
/// the last byte holding the rest.
pub open spec fn spec_read_plan(vs: Seq<ValueDefView>, i: int) -> Option<Seq<ReadStep>>
    decreases vs.len() - i,
{
    if i < 0 || i >= vs.len() {
        Some(Seq::empty())
    } else if vs[i].count == 0 {
        None
    } else if vs[i].kind != ValueKind::Bool {
        match spec_read_plan(vs, i + 1) {
            Some(rest) => Some(Seq::new(vs[i].count as nat, |k: int| ReadStep::Value(vs[i].kind)) + rest),
            None => None,
        }
    } else {
        let end = bool_run_end(vs, i + 1);
        proof {
            lemma_bool_run_end_bounds(vs, i + 1);
        }
        match spec_read_plan(vs, end) {
            Some(rest) => Some(bit_chunks(bool_run_total(vs, i)) + rest),
            None => None,
        }
    }
}

/// Every definition has a nonzero count.
pub open spec fn counts_nonzero(vs: Seq<ValueDefView>) -> bool {
    forall|k: int| 0 <= k < vs.len() ==> (#[trigger] vs[k]).count > 0
}

/// Definitions that all have a nonzero count can always be read, in any
/// order of kinds: the decoder refuses none of them.
pub proof fn lemma_read_plan_exists(vs: Seq<ValueDefView>, i: int)
    requires
        counts_nonzero(vs),
        0 <= i,
    ensures
        spec_read_plan(vs, i) is Some,
    decreases vs.len() - i,
{
    if i < vs.len() {
        assert(vs[i].count > 0);
        if vs[i].kind != ValueKind::Bool {
            lemma_read_plan_exists(vs, i + 1);
        } else {
            lemma_bool_run_end_bounds(vs, i + 1);
            lemma_read_plan_exists(vs, bool_run_end(vs, i + 1));
        }
    }
}

/// The number of bytes a value of the kind takes.
pub open spec fn value_size(kind: ValueKind) -> int {
    match kind {
        ValueKind::U8 | ValueKind::I8 | ValueKind::Bool => 1,
        ValueKind::U16 | ValueKind::I16 => 2,
        ValueKind::U32 | ValueKind::I32 | ValueKind::F32 => 4,
        ValueKind::U64 => 8,
    }
}

/// The value of the kind that `bytes` encode, little-endian.
pub open spec fn value_of(kind: ValueKind, bytes: Seq<u8>) -> PacketValue {
    match kind {
        ValueKind::U8 => PacketValue::U8(bytes[0]),
        ValueKind::U16 => PacketValue::U16(spec_u16_from_le_bytes(bytes)),
        ValueKind::U32 => PacketValue::U32(spec_u32_from_le_bytes(bytes)),
        ValueKind::U64 => PacketValue::U64(spec_u64_from_le_bytes(bytes)),
        ValueKind::I8 => PacketValue::I8(bytes[0] as i8),
        ValueKind::I16 => PacketValue::I16(spec_u16_from_le_bytes(bytes) as i16),
        ValueKind::I32 => PacketValue::I32(spec_u32_from_le_bytes(bytes) as i32),
        ValueKind::F32 => PacketValue::F32(spec_u32_from_le_bytes(bytes)),
        ValueKind::Bool => PacketValue::Bool(bytes[0] != 0),
    }
}

/// The `n` booleans packed in `byte`, the first one written first: bit
/// `n - 1` down to bit 0.
pub open spec fn unpack_bits(byte: u8, n: u8) -> Seq<Result<PacketValue, BinaryDeserializeError>> {
    Seq::new(n as nat, |k: int| Ok(PacketValue::Bool((byte >> ((n - 1 - k) as u8)) & 1u8 == 1u8)))
}

/// What making the reads `steps` on `buf` from `pos` on gives.
///
/// A value that does not fit gives an error and the reading goes on at the
/// same place; packed booleans whose byte is missing end the decoding.
pub open spec fn spec_decode(buf: Seq<u8>, pos: int, steps: Seq<ReadStep>) -> Seq<Result<PacketValue, BinaryDeserializeError>>
    decreases steps.len(),
{
    if steps.len() == 0 {
        Seq::empty()
    } else {
        match steps[0] {
            ReadStep::Value(kind) => if pos + value_size(kind) <= buf.len() {
                seq![Ok(value_of(kind, buf.subrange(pos, pos + value_size(kind))))] + spec_decode(
                    buf,
                    pos + value_size(kind),
                    steps.drop_first(),
                )
            } else {
                seq![Err(BinaryDeserializeError::BufferTooSmall)] + spec_decode(buf, pos, steps.drop_first())
            },
            ReadStep::Bits(n) => if pos < buf.len() {
                unpack_bits(buf[pos], n) + spec_decode(buf, pos + 1, steps.drop_first())
            } else {
                Seq::empty()
            },
        }
    }
}

/// Reads packet values from a buffer.
pub struct PacketValueReader<'a> {
    buf: &'a [u8],
    used: usize,
    header: PacketHeader,
}

impl<'a> PacketValueReader<'a> {
    #[verifier::type_invariant]
    spec fn within(self) -> bool {
        self.used <= self.buf@.len()
    }

    /// The bytes being read.
    pub closed spec fn spec_bytes(self) -> Seq<u8> {
        self.buf@
    }

    /// Where the next read starts.
    pub closed spec fn spec_used(self) -> int {
        self.used as int
    }

    /// The header read from the start of the bytes.
    pub closed spec fn spec_header(self) -> PacketHeader {
        self.header
    }

    /// The next `size` bytes, if there are that many.
    pub open spec fn spec_next(self, size: int) -> Option<Seq<u8>> {
        if self.spec_used() + size <= self.spec_bytes().len() {
            Some(self.spec_bytes().subrange(self.spec_used(), self.spec_used() + size))
        } else {
            None
        }
    }

    /// Reads the packet's header from the start of `buf` and returns a
    /// reader positioned just after it, with the header.
    pub fn new(buf: &'a [u8]) -> (r: Result<(Self, PacketHeader), BinaryDeserializeError>)
        ensures
            r is Ok <==> buf@.len() >= PACKET_HEADER_SIZE,
            r matches Ok((rd, h)) ==> {
                &&& h.id == buf@[0]
                &&& h.timestamp == spec_u16_from_le_bytes(buf@.subrange(1, 3))
                &&& rd.spec_bytes() == buf@
                &&& rd.spec_used() == PACKET_HEADER_SIZE
                &&& rd.spec_header() == h
            },
            r matches Err(e) ==> e == BinaryDeserializeError::BufferTooSmall,
    {
        let mut reader = PacketValueReader { buf, used: 0, header: PacketHeader { id: 0, timestamp: 0 } };
        let id = match reader.read_u8() {
            Ok(v) => v,
            Err(e) => return Err(e),
        };
        let timestamp = match reader.read_u16() {
            Ok(v) => v,
            Err(e) => return Err(e),
        };
        let header = PacketHeader { id, timestamp };
        Ok((PacketValueReader { buf, used: reader.used, header }, header))
    }

    /// The number of bytes read so far, the header's included.
    pub fn used(&self) -> (r: usize)
        ensures
            r == self.spec_used(),
            r <= self.spec_bytes().len(),
    {
        proof {
            use_type_invariant(self);
        }
        self.used
    }

    /// Reads a byte, or fails, reading nothing, at the end of the bytes.
    pub fn read_u8(&mut self) -> (r: Result<u8, BinaryDeserializeError>)
        ensures
            final(self).spec_bytes() == old(self).spec_bytes(),
            final(self).spec_header() == old(self).spec_header(),
            match old(self).spec_next(1) {
                Some(b) => r == Ok::<u8, BinaryDeserializeError>(b[0]) && final(self).spec_used() == old(self).spec_used() + 1,
                None => r == Err::<u8, BinaryDeserializeError>(BinaryDeserializeError::BufferTooSmall)
                    && final(self).spec_used() == old(self).spec_used(),
            },
    {
        proof {
            use_type_invariant(&*self);
        }
        if self.buf.len() - self.used < 1 {
            return Err(BinaryDeserializeError::BufferTooSmall);
        }
        let val = self.buf[self.used];
        self.used = self.used + 1;
        Ok(val)
    }

    /// Takes the next `n` bytes, or fails, reading nothing, if there are
    /// fewer left.
    fn read_bytes(&mut self, n: usize) -> (r: Result<&'a [u8], BinaryDeserializeError>)
        ensures
            final(self).spec_bytes() == old(self).spec_bytes(),
            final(self).spec_header() == old(self).spec_header(),
            match old(self).spec_next(n as int) {
                Some(b) => r matches Ok(s) && s@ == b && final(self).spec_used() == old(self).spec_used() + n,
                None => r == Err::<&[u8], BinaryDeserializeError>(BinaryDeserializeError::BufferTooSmall)
                    && final(self).spec_used() == old(self).spec_used(),
            },
    {
        proof {
            use_type_invariant(&*self);
        }
        if self.buf.len() - self.used < n {
            return Err(BinaryDeserializeError::BufferTooSmall);
        }
        let bytes = &self.buf[self.used..self.used + n];
        self.used = self.used + n;
        Ok(bytes)
    }

    /// Reads a little-endian `u16`, or fails, reading nothing.
    pub fn read_u16(&mut self) -> (r: Result<u16, BinaryDeserializeError>)
        ensures
            final(self).spec_bytes() == old(self).spec_bytes(),
            final(self).spec_header() == old(self).spec_header(),
            match old(self).spec_next(2) {
                Some(b) => r == Ok::<u16, BinaryDeserializeError>(spec_u16_from_le_bytes(b))
                    && final(self).spec_used() == old(self).spec_used() + 2,
                None => r == Err::<u16, BinaryDeserializeError>(BinaryDeserializeError::BufferTooSmall)
                    && final(self).spec_used() == old(self).spec_used(),
            },
    {
        match self.read_bytes(2) {
            Ok(b) => Ok(u16_from_le_bytes(b)),
            Err(e) => Err(e),
        }
    }

    /// Reads a little-endian `u32`, or fails, reading nothing.
    pub fn read_u32(&mut self) -> (r: Result<u32, BinaryDeserializeError>)
        ensures
            final(self).spec_bytes() == old(self).spec_bytes(),
            final(self).spec_header() == old(self).spec_header(),
            match old(self).spec_next(4) {
                Some(b) => r == Ok::<u32, BinaryDeserializeError>(spec_u32_from_le_bytes(b))
                    && final(self).spec_used() == old(self).spec_used() + 4,
                None => r == Err::<u32, BinaryDeserializeError>(BinaryDeserializeError::BufferTooSmall)
                    && final(self).spec_used() == old(self).spec_used(),
            },
    {
        match self.read_bytes(4) {
            Ok(b) => Ok(u32_from_le_bytes(b)),
            Err(e) => Err(e),
        }
    }

    /// Reads a little-endian `u64`, or fails, reading nothing.
    pub fn read_u64(&mut self) -> (r: Result<u64, BinaryDeserializeError>)
        ensures
            final(self).spec_bytes() == old(self).spec_bytes(),
            final(self).spec_header() == old(self).spec_header(),
            match old(self).spec_next(8) {
                Some(b) => r == Ok::<u64, BinaryDeserializeError>(spec_u64_from_le_bytes(b))
                    && final(self).spec_used() == old(self).spec_used() + 8,
                None => r == Err::<u64, BinaryDeserializeError>(BinaryDeserializeError::BufferTooSmall)
                    && final(self).spec_used() == old(self).spec_used(),
            },
    {
        match self.read_bytes(8) {
            Ok(b) => Ok(u64_from_le_bytes(b)),
            Err(e) => Err(e),
        }
    }

    /// Reads an `i8`, or fails, reading nothing.
    pub fn read_i8(&mut self) -> (r: Result<i8, BinaryDeserializeError>)
        ensures
            final(self).spec_bytes() == old(self).spec_bytes(),
            final(self).spec_header() == old(self).spec_header(),
            match old(self).spec_next(1) {
                Some(b) => r == Ok::<i8, BinaryDeserializeError>(b[0] as i8) && final(self).spec_used() == old(self).spec_used() + 1,
                None => r == Err::<i8, BinaryDeserializeError>(BinaryDeserializeError::BufferTooSmall)
                    && final(self).spec_used() == old(self).spec_used(),
            },
    {
        match self.read_u8() {
            Ok(v) => Ok(v as i8),
            Err(e) => Err(e),
        }
    }

    /// Reads a little-endian `i16`, or fails, reading nothing.
    pub fn read_i16(&mut self) -> (r: Result<i16, BinaryDeserializeError>)
        ensures
            final(self).spec_bytes() == old(self).spec_bytes(),
            final(self).spec_header() == old(self).spec_header(),
            match old(self).spec_next(2) {
                Some(b) => r == Ok::<i16, BinaryDeserializeError>(spec_u16_from_le_bytes(b) as i16)
                    && final(self).spec_used() == old(self).spec_used() + 2,
                None => r == Err::<i16, BinaryDeserializeError>(BinaryDeserializeError::BufferTooSmall)
                    && final(self).spec_used() == old(self).spec_used(),
            },
    {
        match self.read_u16() {
            Ok(v) => Ok(v as i16),
            Err(e) => Err(e),
        }
    }

    /// Reads a little-endian `i32`, or fails, reading nothing.
    pub fn read_i32(&mut self) -> (r: Result<i32, BinaryDeserializeError>)
        ensures
            final(self).spec_bytes() == old(self).spec_bytes(),
            final(self).spec_header() == old(self).spec_header(),
            match old(self).spec_next(4) {
                Some(b) => r == Ok::<i32, BinaryDeserializeError>(spec_u32_from_le_bytes(b) as i32)
                    && final(self).spec_used() == old(self).spec_used() + 4,
                None => r == Err::<i32, BinaryDeserializeError>(BinaryDeserializeError::BufferTooSmall)
                    && final(self).spec_used() == old(self).spec_used(),
            },
    {
        match self.read_u32() {
            Ok(v) => Ok(v as i32),
            Err(e) => Err(e),
        }
    }

    /// Reads one value of the kind, or fails, reading nothing.
    pub fn read_value(&mut self, kind: ValueKind) -> (r: Result<PacketValue, BinaryDeserializeError>)
        ensures
            final(self).spec_bytes() == old(self).spec_bytes(),
            final(self).spec_header() == old(self).spec_header(),
            match old(self).spec_next(value_size(kind)) {
                Some(b) => r == Ok::<PacketValue, BinaryDeserializeError>(value_of(kind, b))
                    && final(self).spec_used() == old(self).spec_used() + value_size(kind),
                None => r == Err::<PacketValue, BinaryDeserializeError>(BinaryDeserializeError::BufferTooSmall)
                    && final(self).spec_used() == old(self).spec_used(),
            },
    {
        match kind {
            ValueKind::U8 => match self.read_u8() {
                Ok(v) => Ok(PacketValue::U8(v)),
                Err(e) => Err(e),
            },
            ValueKind::U16 => match self.read_u16() {
                Ok(v) => Ok(PacketValue::U16(v)),
                Err(e) => Err(e),
            },
            ValueKind::U32 => match self.read_u32() {
                Ok(v) => Ok(PacketValue::U32(v)),
                Err(e) => Err(e),
            },
            ValueKind::U64 => match self.read_u64() {
                Ok(v) => Ok(PacketValue::U64(v)),
                Err(e) => Err(e),
            },
            ValueKind::I8 => match self.read_i8() {
                Ok(v) => Ok(PacketValue::I8(v)),
                Err(e) => Err(e),
            },
            ValueKind::I16 => match self.read_i16() {
                Ok(v) => Ok(PacketValue::I16(v)),
                Err(e) => Err(e),
            },
            ValueKind::I32 => match self.read_i32() {
                Ok(v) => Ok(PacketValue::I32(v)),
                Err(e) => Err(e),
            },
            ValueKind::F32 => match self.read_u32() {
                Ok(v) => Ok(PacketValue::F32(v)),
                Err(e) => Err(e),
            },
            ValueKind::Bool => match self.read_u8() {
                Ok(v) => Ok(PacketValue::Bool(v != 0)),
                Err(e) => Err(e),
            },
        }
    }

    /// Makes the reads `plan` from the current position on.
    fn decode(&mut self, plan: &Vec<ReadStep>) -> (r: Vec<Result<PacketValue, BinaryDeserializeError>>)
        requires
            plan_bits_fit(plan@),
        ensures
            r@ == spec_decode(old(self).spec_bytes(), old(self).spec_used(), plan@),
    {
        let ghost bytes = self.spec_bytes();
        let ghost start = self.spec_used();
        let mut out: Vec<Result<PacketValue, BinaryDeserializeError>> = Vec::new();
        let n = plan.len();
        let mut k: usize = 0;
        assert(plan@.skip(0) =~= plan@);
        while k < n
            invariant
                0 <= k <= n,
                n == plan@.len(),
                plan_bits_fit(plan@),
                self.spec_bytes() == bytes,
                bytes == old(self).spec_bytes(),
                start == old(self).spec_used(),
                out@ + spec_decode(bytes, self.spec_used(), plan@.skip(k as int)) == spec_decode(bytes, start, plan@),
            decreases n - k,
        {
            let ghost pos = self.spec_used();
            let ghost rest = plan@.skip(k as int);
            assert(rest[0] == plan@[k as int]);
            assert(rest.drop_first() =~= plan@.skip(k + 1));
            match plan[k] {
                ReadStep::Value(kind) => {
                    let v = self.read_value(kind);
                    out.push(v);
                    assert(out@ + spec_decode(bytes, self.spec_used(), plan@.skip(k + 1)) =~= spec_decode(bytes, start, plan@));
                },
                ReadStep::Bits(count) => {
                    assert(1 <= count <= 8);
                    match self.read_u8() {
                        Ok(byte) => {
                            let ghost before = out@;
                            let mut b: u8 = 0;
                            while b < count
                                invariant
                                    0 <= b <= count,
                                    1 <= count <= 8,
                                    out@ == before + unpack_bits(byte, count).take(b as int),
                                decreases count - b,
                            {
                                let bit = (byte >> (count - 1 - b)) & 1u8;
                                out.push(Ok(PacketValue::Bool(bit == 1u8)));
                                assert(unpack_bits(byte, count).take(b + 1) =~= unpack_bits(byte, count).take(b as int).push(
                                    Ok(PacketValue::Bool(bit == 1u8)),
                                ));
                                b = b + 1;
                            }
                            assert(unpack_bits(byte, count).take(count as int) =~= unpack_bits(byte, count));
                            assert(out@ + spec_decode(bytes, self.spec_used(), plan@.skip(k + 1)) =~= spec_decode(bytes, start, plan@));
                        },
                        Err(_) => {
                            assert(out@ =~= spec_decode(bytes, start, plan@));
                            return out;
                        },
                    }
                },
            }
            k = k + 1;
        }
        assert(out@ =~= spec_decode(bytes, start, plan@));
        out
    }

    /// Decodes the values of the packet whose header this reader read, as
    /// the first of `packet_defs` with the header's ID defines them.
    ///
    /// Fails with [`BinaryDeserializeError::InvalidData`] if no definition
    /// has that ID, or if that definition has a count of zero where a read
    /// starts. Otherwise returns the values in order, each one or the error
    /// of reading it, as far as the reads go.
    pub fn read_values(self, packet_defs: &[PacketDef]) -> (r: Result<Vec<Result<PacketValue, BinaryDeserializeError>>, BinaryDeserializeError>)
        ensures
            (forall|i: int| 0 <= i < packet_defs@.len() ==> packet_defs@[i].id != self.spec_header().id) ==> r
                == Err::<Vec<Result<PacketValue, BinaryDeserializeError>>, BinaryDeserializeError>(
                BinaryDeserializeError::InvalidData,
            ),
            forall|i: int|
                is_first_with_id(packet_defs@.map_values(|d: PacketDef| d@), self.spec_header().id, i) && counts_nonzero(
                    #[trigger] packet_defs@[i]@.values,
                ) ==> r is Ok,
            forall|i: int|
                is_first_with_id(packet_defs@.map_values(|d: PacketDef| d@), self.spec_header().id, i) ==> match spec_read_plan(
                    #[trigger] packet_defs@[i]@.values,
                    0,
                ) {
                    None => r == Err::<Vec<Result<PacketValue, BinaryDeserializeError>>, BinaryDeserializeError>(
                        BinaryDeserializeError::InvalidData,
                    ),
                    Some(plan) => r matches Ok(values) && values@ == spec_decode(self.spec_bytes(), self.spec_used(), plan),
                },
    {
        let ghost defs = packet_defs@.map_values(|d: PacketDef| d@);
        let mut this = self;
        let id = this.header.id;
        let n = packet_defs.len();
        let mut i: usize = 0;
        while i < n && packet_defs[i].id != id
            invariant
                0 <= i <= n,
                n == packet_defs@.len(),
                defs == packet_defs@.map_values(|d: PacketDef| d@),
                forall|j: int| 0 <= j < i ==> packet_defs@[j].id != id,
            decreases n - i,
        {
            i = i + 1;
        }
        if i == n {
            proof {
                assert forall|k: int| #![trigger defs[k]] !is_first_with_id(defs, id, k) by {
                    if 0 <= k < n {
                        assert(defs[k] == packet_defs@[k]@);
                    }
                }
            }
            return Err(BinaryDeserializeError::InvalidData);
        }
        assert forall|j: int| 0 <= j < i implies defs[j].id != id by {
            assert(defs[j] == packet_defs@[j]@);
        }
        assert(defs[i as int] == packet_defs@[i as int]@);
        assert(is_first_with_id(defs, id, i as int));
        assert forall|k: int| is_first_with_id(defs, id, k) implies k == i by {
            if k < i {
                assert(defs[k] == packet_defs@[k]@);
            }
        }
        let values = packet_defs[i].values.as_slice();
        proof {
            crate::metadata::lemma_value_def_views_within(values@);
        }
        assert(packet_defs@[i as int]@.values == values@.map_values(|d: ValueDef| d@));
        proof {
            if counts_nonzero(packet_defs@[i as int]@.values) {
                lemma_read_plan_exists(packet_defs@[i as int]@.values, 0);
            }
        }
        match build_read_plan(values) {
            Some(plan) => Ok(this.decode(&plan)),
            None => Err(BinaryDeserializeError::InvalidData),
        }
    }
}


/// Each read of packed booleans takes one to eight of them.
pub open spec fn plan_bits_fit(plan: Seq<ReadStep>) -> bool {
    forall|k: int| 0 <= k < plan.len() ==> (#[trigger] plan[k] matches ReadStep::Bits(n) ==> 1 <= n <= 8)
}

/// The plan of reads for the value definitions `values`, or `None` where a
/// definition that starts a read has a count of zero.
fn build_read_plan(values: &[ValueDef]) -> (r: Option<Vec<ReadStep>>)
    requires
        values@.len() <= crate::metadata::PACKET_DEF_MAX_VALUES,
    ensures
        match spec_read_plan(values@.map_values(|d: ValueDef| d@), 0) {
            None => r is None,
            Some(p) => r matches Some(v) && v@ == p && plan_bits_fit(v@),
        },
{
    let ghost vs = values@.map_values(|d: ValueDef| d@);
    let n = values.len();
    let mut out: Vec<ReadStep> = Vec::new();
    let mut i: usize = 0;
    while i < n
        invariant
            0 <= i <= n,
            n == vs.len(),
            n <= crate::metadata::PACKET_DEF_MAX_VALUES,
            vs == values@.map_values(|d: ValueDef| d@),
            spec_read_plan(vs, 0) == match spec_read_plan(vs, i as int) {
                Some(rest) => Some(out@ + rest),
                None => None::<Seq<ReadStep>>,
            },
            plan_bits_fit(out@),
        decreases n - i,
    {
        let kind = values[i].kind;
        let count = values[i].count;
        assert(values@[i as int]@ == vs[i as int]);
        if count == 0 {
            return None;
        }
        let ghost out_before = out@;
        if kind != ValueKind::Bool {
            let mut c: u8 = 0;
            while c < count
                invariant
                    0 <= c <= count,
                    out@ == out_before + Seq::new(c as nat, |k: int| ReadStep::Value(kind)),
                    plan_bits_fit(out@),
                decreases count - c,
            {
                out.push(ReadStep::Value(kind));
                assert(out@ =~= out_before + Seq::new((c + 1) as nat, |k: int| ReadStep::Value(kind)));
                c = c + 1;
            }
            proof {
                match spec_read_plan(vs, i + 1) {
                    Some(rest) => {
                        assert(out@ + rest =~= out_before + spec_read_plan(vs, i as int)->0);
                    },
                    None => {},
                }
            }
            i = i + 1;
        } else {
            let mut j: usize = i + 1;
            let mut total: u32 = count as u32;
            while j < n && values[j].kind == ValueKind::Bool
                invariant
                    i + 1 <= j <= n,
                    n == vs.len(),
                    n <= crate::metadata::PACKET_DEF_MAX_VALUES,
                    vs == values@.map_values(|d: ValueDef| d@),
                    total <= 255 * (j - i),
                    bool_run_end(vs, i + 1) == bool_run_end(vs, j as int),
                    bool_run_total(vs, i as int) == total + bool_run_total(vs, j as int),
                decreases n - j,
            {
                assert(values@[j as int]@ == vs[j as int]);
                total = total + values[j].count as u32;
                j = j + 1;
            }
            proof {
                if j < n {
                    assert(values@[j as int]@ == vs[j as int]);
                }
                assert(bool_run_end(vs, j as int) == j);
                assert(bool_run_total(vs, j as int) == 0);
            }
            let ghost chunks = bit_chunks(total as int);
            let mut t: u32 = total;
            while t > 0
                invariant
                    out@ + bit_chunks(t as int) == out_before + chunks,
                    chunks == bit_chunks(total as int),
                    plan_bits_fit(out@),
                decreases t,
            {
                let c: u32 = if t > 8 {
                    8
                } else {
                    t
                };
                let ghost before_push = out@;
                out.push(ReadStep::Bits(c as u8));
                assert(before_push + bit_chunks(t as int) =~= out@ + bit_chunks((t - c) as int));
                t = t - c;
            }
            proof {
                assert(out@ =~= out_before + chunks);
                match spec_read_plan(vs, j as int) {
                    Some(rest) => {
                        assert(out@ + rest =~= out_before + spec_read_plan(vs, i as int)->0);
                    },
                    None => {},
                }
            }
            i = j;
        }
    }
    proof {
        assert(out@ + Seq::<ReadStep>::empty() =~= out@);
    }
    Some(out)
}

// ---------------------------------------------------------------------------
// What the reader gives back of what the writer wrote.
// ---------------------------------------------------------------------------

/// A header reads back as itself from the bytes that the writer puts first.
pub proof fn lemma_header_read_back(h: PacketHeader, buf: Seq<u8>)
    requires
        buf.len() >= PACKET_HEADER_SIZE,
        buf.take(PACKET_HEADER_SIZE as int) == h.spec_encoding(),
    ensures
        buf[0] == h.id,
        spec_u16_from_le_bytes(buf.subrange(1, 3)) == h.timestamp,
{
    crate::wire::lemma_le_lengths();
    assert(buf[0] == buf.take(PACKET_HEADER_SIZE as int)[0]);
    assert(buf.subrange(1, 3) =~= h.spec_encoding().subrange(1, 3));
    assert(h.spec_encoding().subrange(1, 3) =~= le16(h.timestamp));
}

/// The bytes that [`PacketWriter::write_u8`], [`PacketWriter::write_u16`],
/// [`PacketWriter::write_u32`] and [`PacketWriter::write_u64`] write read
/// back as the value written, and those of a `u32` holding a float's bits
/// read back as that float.
pub proof fn lemma_written_values_read_back(a: u8, b: u16, c: u32, d: u64)
    ensures
        value_of(ValueKind::U8, seq![a]) == PacketValue::U8(a),
        value_of(ValueKind::U16, le16(b)) == PacketValue::U16(b),
        value_of(ValueKind::U32, le32(c)) == PacketValue::U32(c),
        value_of(ValueKind::U64, le64(d)) == PacketValue::U64(d),
        value_of(ValueKind::F32, le32(c)) == PacketValue::F32(c),
        value_size(ValueKind::U16) == le16(b).len(),
        value_size(ValueKind::U32) == le32(c).len(),
        value_size(ValueKind::U64) == le64(d).len(),
{
    crate::wire::lemma_le_lengths();
    assert(le16(b).len() == 2);
    assert(le32(c).len() == 4);
    assert(le64(d).len() == 8);
}

/// The byte that writing the booleans `ws`, one after the other, into a
/// freshly claimed zero byte leaves.
pub open spec fn packed_byte(ws: Seq<bool>) -> u8
    decreases ws.len(),
{
    if ws.len() == 0 {
        0
    } else {
        push_bit(packed_byte(ws.drop_last()), ws.last())
    }
}

/// The booleans `ws` as the bits of a number, the first one the highest:
/// the sum of `2^(ws.len() - 1 - i)` over the `i` where `ws[i]` holds.
pub open spec fn bits_value(ws: Seq<bool>) -> int
    decreases ws.len(),
{
    if ws.len() == 0 {
        0
    } else {
        (if ws[0] {
            pow2((ws.len() - 1) as nat) as int
        } else {
            0
        }) + bits_value(ws.drop_first())
    }
}

proof fn lemma_bits_value_push(ws: Seq<bool>, w: bool)
    ensures
        bits_value(ws.push(w)) == 2 * bits_value(ws) + (if w {
            1int
        } else {
            0
        }),
        0 <= bits_value(ws) < pow2(ws.len()),
    decreases ws.len(),
{
    let x = ws.push(w);
    if ws.len() == 0 {
        assert(x.drop_first() =~= Seq::<bool>::empty());
        assert(x[0] == w);
        assert(bits_value(Seq::<bool>::empty()) == 0);
        vstd::arithmetic::power2::lemma2_to64();
    } else {
        let d = ws.drop_first();
        assert(x.drop_first() =~= d.push(w));
        assert(x[0] == ws[0]);
        lemma_bits_value_push(d, w);
        vstd::arithmetic::power2::lemma_pow2_unfold(ws.len() as nat);
        assert(pow2((x.len() - 1) as nat) == 2 * pow2((ws.len() - 1) as nat));
    }
}

/// The byte that writing one to eight booleans into a fresh byte leaves is
/// the sum of their bits, each shifted by the number of booleans written
/// after it: `sum over i of (ws[i] as u8) << (ws.len() - 1 - i)`.
pub proof fn lemma_packed_byte_value(ws: Seq<bool>)
    requires
        ws.len() <= 8,
    ensures
        packed_byte(ws) as int == bits_value(ws),
    decreases ws.len(),
{
    if ws.len() > 0 {
        let d = ws.drop_last();
        let w = ws.last();
        lemma_packed_byte_value(d);
        lemma_bits_value_push(d, w);
        assert(d.push(w) =~= ws);
        vstd::arithmetic::power2::lemma2_to64();
        let p = packed_byte(d);
        assert(p < 128) by {
            if d.len() < 7 {
                vstd::arithmetic::power2::lemma_pow2_strictly_increases(d.len(), 7);
            }
        }
        if w {
            assert(((p << 1u8) | 1u8) as int == 2 * p + 1) by (bit_vector)
                requires
                    p < 128,
            ;
        } else {
            assert(((p << 1u8) | 0u8) as int == 2 * p) by (bit_vector)
                requires
                    p < 128,
            ;
        }
    }
}

proof fn lemma_push_bit_bits(p: u8, w: bool, s: u8)
    requires
        1 <= s <= 7,
    ensures
        (push_bit(p, w) >> s) & 1u8 == (p >> ((s - 1) as u8)) & 1u8,
        ((push_bit(p, w) >> 0u8) & 1u8 == 1u8) == w,
{
    if w {
        assert((((p << 1u8) | 1u8) >> s) & 1u8 == (p >> ((s - 1) as u8)) & 1u8) by (bit_vector)
            requires
                1 <= s <= 7,
        ;
        assert(((((p << 1u8) | 1u8) >> 0u8) & 1u8) == 1u8) by (bit_vector);
    } else {
        assert((((p << 1u8) | 0u8) >> s) & 1u8 == (p >> ((s - 1) as u8)) & 1u8) by (bit_vector)
            requires
                1 <= s <= 7,
        ;
        assert(((((p << 1u8) | 0u8) >> 0u8) & 1u8) == 0u8) by (bit_vector);
    }
}

/// One to eight booleans packed into a byte by [`PacketWriter::write_bool`]
/// read back, in the order written, from that byte.
pub proof fn lemma_packed_bools_read_back(ws: Seq<bool>)
    requires
        1 <= ws.len() <= 8,
    ensures
        unpack_bits(packed_byte(ws), ws.len() as u8) == ws.map_values(
            |w: bool| Ok::<PacketValue, BinaryDeserializeError>(PacketValue::Bool(w)),
        ),
    decreases ws.len(),
{
    let n = (ws.len() - 1) as int;
    let d = ws.drop_last();
    let p = packed_byte(d);
    let w = ws.last();
    let m = ws.len() as u8;
    if n >= 1 {
        lemma_packed_bools_read_back(d);
    }
    assert forall|k: int| 0 <= k < ws.len() implies #[trigger] unpack_bits(packed_byte(ws), m)[k] == Ok::<
        PacketValue,
        BinaryDeserializeError,
    >(PacketValue::Bool(ws[k])) by {
        if k < n {
            lemma_push_bit_bits(p, w, (m - 1 - k) as u8);
            assert(unpack_bits(p, n as u8)[k] == Ok::<PacketValue, BinaryDeserializeError>(PacketValue::Bool(d[k])));
        } else {
            lemma_push_bit_bits(p, w, 1);
        }
    }
    assert(unpack_bits(packed_byte(ws), m) =~= ws.map_values(
        |w: bool| Ok::<PacketValue, BinaryDeserializeError>(PacketValue::Bool(w)),
    ));
}

} // verus!
