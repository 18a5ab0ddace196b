//! The metadata of a log: the definitions of the packets that its data blocks
//! hold, written to a block of type [`crate::block::BlockType::Meta`].

use crate::wire::{holds_prefix_of, splice};
use crate::{
    result_view, BinaryDeserializable, BinaryDeserializeError, BinarySerializable,
    BinarySerializeError, DeserializeErrorView, Version,
};
use vstd::prelude::*;
use vstd::std_specs::convert::TryFromSpecImpl;
use vstd::string::StringSliceAdditionalSpecFns;

verus! {

/// The maximum number of packet type definitions that may be included in a
/// metadata block.
pub const METADATA_MAX_PACKET_DEFS: usize = 16;

/// The maximum length of a field name in bytes, not including the null
/// terminator.
pub const FIELD_NAME_MAX_LEN: usize = 8;

/// Maximum number of values that can be defined in a [`PacketDef`].
pub const PACKET_DEF_MAX_VALUES: usize = 32;

// ---------------------------------------------------------------------------
// Fixed-capacity storage, held in `heapless::Vec`s.
// ---------------------------------------------------------------------------

/// The bytes of a field name, in a `heapless::Vec` of capacity
/// [`FIELD_NAME_MAX_LEN`].
#[verifier::external_body]
#[derive(Debug, PartialEq, Eq)]
pub struct NameBytes {
    bytes: heapless::Vec<u8, FIELD_NAME_MAX_LEN>,
}

/// The bytes that a [`NameBytes`] holds, in order.
pub uninterp spec fn name_bytes_of(n: NameBytes) -> Seq<u8>;

impl NameBytes {
    /// `heapless::Vec::new`: holds nothing.
    #[verifier::external_body]
    pub fn new() -> (r: Self)
        ensures
            name_bytes_of(r) == Seq::<u8>::empty(),
    {
        NameBytes { bytes: heapless::Vec::new() }
    }

    /// `heapless::Vec::from_array`, which refuses at compile time an array
    /// longer than the capacity: holds the array's bytes.
    #[verifier::external_body]
    pub fn from_array<const M: usize>(arr: [u8; M]) -> (r: Self)
        requires
            M <= FIELD_NAME_MAX_LEN,
        ensures
            name_bytes_of(r) == arr@,
    {
        NameBytes { bytes: heapless::Vec::from_array(arr) }
    }

    /// `heapless::Vec::from_slice`: the slice's bytes, or `None` when there
    /// are more of them than the capacity.
    #[verifier::external_body]
    pub fn from_slice(s: &[u8]) -> (r: Option<Self>)
        ensures
            r is Some <==> s@.len() <= FIELD_NAME_MAX_LEN,
            r matches Some(n) ==> name_bytes_of(n) == s@,
    {
        match heapless::Vec::from_slice(s) {
            Ok(bytes) => Some(NameBytes { bytes }),
            Err(_) => None,
        }
    }

    /// `heapless::Vec::push`: appends the byte unless the storage is full,
    /// in which case it hands the byte back and changes nothing.
    #[verifier::external_body]
    pub fn push(&mut self, byte: u8) -> (r: Result<(), u8>)
        ensures
            r is Ok <==> name_bytes_of(*old(self)).len() < FIELD_NAME_MAX_LEN,
            r is Ok ==> name_bytes_of(*final(self)) == name_bytes_of(*old(self)).push(byte),
            r matches Err(b) ==> b == byte && name_bytes_of(*final(self)) == name_bytes_of(*old(self)),
    {
        self.bytes.push(byte)
    }

    /// `heapless::Vec::as_slice`: the bytes held, never more than the
    /// capacity.
    #[verifier::external_body]
    pub fn as_slice(&self) -> (r: &[u8])
        ensures
            r@ == name_bytes_of(*self),
            r@.len() <= FIELD_NAME_MAX_LEN,
    {
        self.bytes.as_slice()
    }
}

impl Clone for NameBytes {
    /// `heapless::Vec::clone`: holds the same bytes.
    #[verifier::external_body]
    fn clone(&self) -> (r: Self)
        ensures
            name_bytes_of(r) == name_bytes_of(*self),
    {
        NameBytes { bytes: self.bytes.clone() }
    }
}

/// The definitions of a packet's values, in a `heapless::Vec` of capacity
/// [`PACKET_DEF_MAX_VALUES`].
#[verifier::external_body]
#[derive(Debug, PartialEq, Eq)]
pub struct ValueDefs {
    defs: heapless::Vec<ValueDef, PACKET_DEF_MAX_VALUES>,
}

/// The views of the value definitions that a [`ValueDefs`] holds, in order.
pub uninterp spec fn value_defs_of(v: ValueDefs) -> Seq<ValueDefView>;

impl ValueDefs {
    /// `heapless::Vec::new`: holds nothing.
    #[verifier::external_body]
    pub fn new() -> (r: Self)
        ensures
            value_defs_of(r) == Seq::<ValueDefView>::empty(),
    {
        ValueDefs { defs: heapless::Vec::new() }
    }

    /// `heapless::Vec::from_slice`: clones of the slice's definitions, or
    /// `None` when there are more of them than the capacity.
    #[verifier::external_body]
    pub fn from_slice(s: &[ValueDef]) -> (r: Option<Self>)
        ensures
            r is Some <==> s@.len() <= PACKET_DEF_MAX_VALUES,
            r matches Some(v) ==> value_defs_of(v) == s@.map_values(|d: ValueDef| d@),
    {
        match heapless::Vec::from_slice(s) {
            Ok(defs) => Some(ValueDefs { defs }),
            Err(_) => None,
        }
    }

    /// `heapless::Vec::push`: appends the definition unless the storage is
    /// full, in which case it hands the definition back and changes nothing.
    #[verifier::external_body]
    pub fn push(&mut self, def: ValueDef) -> (r: Result<(), ValueDef>)
        ensures
            r is Ok <==> value_defs_of(*old(self)).len() < PACKET_DEF_MAX_VALUES,
            r is Ok ==> value_defs_of(*final(self)) == value_defs_of(*old(self)).push(def@),
            r matches Err(d) ==> d == def && value_defs_of(*final(self)) == value_defs_of(*old(self)),
    {
        self.defs.push(def)
    }

    /// `heapless::Vec::as_slice`: the definitions held, never more than the
    /// capacity.
    #[verifier::external_body]
    pub fn as_slice(&self) -> (r: &[ValueDef])
        ensures
            r@.map_values(|d: ValueDef| d@) == value_defs_of(*self),
            r@.len() <= PACKET_DEF_MAX_VALUES,
    {
        self.defs.as_slice()
    }
}

impl Clone for ValueDefs {
    /// `heapless::Vec::clone`: holds clones of the same definitions.
    #[verifier::external_body]
    fn clone(&self) -> (r: Self)
        ensures
            value_defs_of(r) == value_defs_of(*self),
    {
        ValueDefs { defs: self.defs.clone() }
    }
}

/// The packet definitions of a metadata block, in a `heapless::Vec` of
/// capacity [`METADATA_MAX_PACKET_DEFS`].
#[verifier::external_body]
#[derive(Debug, PartialEq, Eq)]
pub struct PacketDefs {
    defs: heapless::Vec<PacketDef, METADATA_MAX_PACKET_DEFS>,
}

/// The views of the packet definitions that a [`PacketDefs`] holds, in
/// order.
pub uninterp spec fn packet_defs_of(v: PacketDefs) -> Seq<PacketDefView>;

impl PacketDefs {
    /// `heapless::Vec::new`: holds nothing.
    #[verifier::external_body]
    pub fn new() -> (r: Self)
        ensures
            packet_defs_of(r) == Seq::<PacketDefView>::empty(),
    {
        PacketDefs { defs: heapless::Vec::new() }
    }

    /// `heapless::Vec::from_slice`: clones of the slice's definitions, or
    /// `None` when there are more of them than the capacity.
    #[verifier::external_body]
    pub fn from_slice(s: &[PacketDef]) -> (r: Option<Self>)
        ensures
            r is Some <==> s@.len() <= METADATA_MAX_PACKET_DEFS,
            r matches Some(v) ==> packet_defs_of(v) == s@.map_values(|d: PacketDef| d@),
    {
        match heapless::Vec::from_slice(s) {
            Ok(defs) => Some(PacketDefs { defs }),
            Err(_) => None,
        }
    }

    /// `heapless::Vec::push`: appends the definition unless the storage is
    /// full, in which case it hands the definition back and changes nothing.
    #[verifier::external_body]
    pub fn push(&mut self, def: PacketDef) -> (r: Result<(), PacketDef>)
        ensures
            r is Ok <==> packet_defs_of(*old(self)).len() < METADATA_MAX_PACKET_DEFS,
            r is Ok ==> packet_defs_of(*final(self)) == packet_defs_of(*old(self)).push(def@),
            r matches Err(d) ==> d == def && packet_defs_of(*final(self)) == packet_defs_of(*old(self)),
    {
        self.defs.push(def)
    }

    /// `heapless::Vec::as_slice`: the definitions held, never more than the
    /// capacity.
    #[verifier::external_body]
    pub fn as_slice(&self) -> (r: &[PacketDef])
        ensures
            r@.map_values(|d: PacketDef| d@) == packet_defs_of(*self),
            r@.len() <= METADATA_MAX_PACKET_DEFS,
    {
        self.defs.as_slice()
    }
}

impl Clone for PacketDefs {
    /// `heapless::Vec::clone`: holds clones of the same definitions.
    #[verifier::external_body]
    fn clone(&self) -> (r: Self)
        ensures
            packet_defs_of(r) == packet_defs_of(*self),
    {
        PacketDefs { defs: self.defs.clone() }
    }
}

// ---------------------------------------------------------------------------
// Field names.
// ---------------------------------------------------------------------------

/// A name of up to [`FIELD_NAME_MAX_LEN`] bytes for a value or packet. It is
/// written followed by a zero byte.
#[derive(Debug, PartialEq, Eq)]
pub struct FieldName {
    /// The stored name of the field.
    name: NameBytes,
}

impl FieldName {
    /// A name never holds more than [`FIELD_NAME_MAX_LEN`] bytes.
    #[verifier::type_invariant]
    spec fn fits(self) -> bool {
        name_bytes_of(self.name).len() <= FIELD_NAME_MAX_LEN
    }
}

/// The first `n` items of `s`, or all of them where there are no more.
///
/// The storages here never hold more than their capacity, so the views that
/// use this to say so are each storage's contents.
pub open spec fn at_most<T>(s: Seq<T>, n: int) -> Seq<T> {
    if s.len() <= n {
        s
    } else {
        s.take(n)
    }
}

impl View for FieldName {
    type V = Seq<u8>;

    /// The bytes of the name, of which there are never more than
    /// [`FIELD_NAME_MAX_LEN`].
    closed spec fn view(&self) -> Seq<u8> {
        at_most(name_bytes_of(self.name), FIELD_NAME_MAX_LEN as int)
    }
}

impl FieldName {
    /// A name holds at most [`FIELD_NAME_MAX_LEN`] bytes.
    pub proof fn lemma_len(name: FieldName)
        ensures
            name@.len() <= FIELD_NAME_MAX_LEN,
    {
    }
}

/// The index of the first zero byte of `buf` is `i`.
pub open spec fn is_first_zero(buf: Seq<u8>, i: int) -> bool {
    &&& 0 <= i < buf.len()
    &&& buf[i] == 0
    &&& forall|j: int| 0 <= j < i ==> buf[j] != 0
}

/// The end of the longest prefix of the string's `bytes` that ends on a
/// character boundary and is at most `limit` bytes long.
pub open spec fn truncation_point(bytes: Seq<u8>, limit: int) -> int
    decreases limit,
{
    if limit <= 0 || vstd::utf8::is_char_boundary(bytes, limit) {
        limit
    } else {
        truncation_point(bytes, limit - 1)
    }
}

/// The text of a too-long name: its bytes read as UTF-8, with each invalid
/// sequence replaced by U+FFFD.
pub uninterp spec fn utf8_lossy(bytes: Seq<u8>) -> Seq<char>;

/// `String::from_utf8_lossy` followed by `to_string`: the bytes read as
/// UTF-8 with invalid sequences replaced, as an owned string.
#[verifier::external_body]
fn lossy_string(bytes: &[u8]) -> (r: String)
    ensures
        r@ == utf8_lossy(bytes@),
{
    String::from_utf8_lossy(bytes).to_string()
}

/// `core::str::from_utf8`: the text that the bytes encode, when they are
/// valid UTF-8.
#[verifier::external_body]
fn utf8_text(bytes: &[u8]) -> (r: Option<&str>)
    ensures
        r is Some <==> vstd::utf8::valid_utf8(bytes@),
        r matches Some(s) ==> s@ == vstd::utf8::decode_utf8(bytes@),
{
    core::str::from_utf8(bytes).ok()
}

impl FieldName {
    /// The name as text: its bytes read as UTF-8, or `<invalid UTF-8>` when
    /// they are not valid UTF-8.
    pub fn to_display_string(&self) -> (r: String)
        ensures
            r@ == if vstd::utf8::valid_utf8(self@) {
                vstd::utf8::decode_utf8(self@)
            } else {
                "<invalid UTF-8>"@
            },
    {
        match utf8_text(self.name.as_slice()) {
            Some(s) => s.to_owned(),
            None => "<invalid UTF-8>".to_owned(),
        }
    }

    /// The bytes that encode the name: the name and a zero byte.
    pub open spec fn spec_name_encoding(name: Seq<u8>) -> Seq<u8> {
        name.push(0)
    }

    /// Initializes the name from an array of at most [`FIELD_NAME_MAX_LEN`]
    /// bytes.
    pub fn from_array<const M: usize>(arr: [u8; M]) -> (r: Self)
        requires
            M <= FIELD_NAME_MAX_LEN,
        ensures
            r@ == arr@,
    {
        FieldName { name: NameBytes::from_array(arr) }
    }

    /// The name made of the longest prefix of `s` that is at most
    /// [`FIELD_NAME_MAX_LEN`] bytes long and does not cut a character.
    pub fn from_str_truncating(s: &str) -> (r: Self)
        ensures
            r@ == s.spec_bytes().take(
                truncation_point(
                    s.spec_bytes(),
                    if s.spec_bytes().len() < FIELD_NAME_MAX_LEN {
                        s.spec_bytes().len() as int
                    } else {
                        FIELD_NAME_MAX_LEN as int
                    },
                ),
            ),
    {
        let bytes = s.as_bytes();
        let mut end = if bytes.len() < FIELD_NAME_MAX_LEN {
            bytes.len()
        } else {
            FIELD_NAME_MAX_LEN
        };
        let ghost limit = end as int;
        proof {
            vstd::utf8::encode_utf8_valid_utf8(s@);
        }
        while !s.is_char_boundary(end)
            invariant
                vstd::utf8::valid_utf8(s.spec_bytes()),
                limit == (if s.spec_bytes().len() < FIELD_NAME_MAX_LEN {
                    s.spec_bytes().len() as int
                } else {
                    FIELD_NAME_MAX_LEN as int
                }),
                0 <= end <= limit <= FIELD_NAME_MAX_LEN,
                limit <= s.spec_bytes().len(),
                truncation_point(s.spec_bytes(), end as int) == truncation_point(s.spec_bytes(), limit),
            decreases end,
        {
            assert(end != 0);
            end = end - 1;
        }
        let prefix = &bytes[0..end];
        assert(prefix@ =~= s.spec_bytes().take(end as int));
        match NameBytes::from_slice(prefix) {
            Some(name) => FieldName { name },
            None => {
                assert(false);
                FieldName { name: NameBytes::new() }
            },
        }
    }

    /// The bytes of the name, never more than [`FIELD_NAME_MAX_LEN`].
    pub fn inner(&self) -> (r: &[u8])
        ensures
            r@ == self@,
            r@.len() <= FIELD_NAME_MAX_LEN,
    {
        proof {
            use_type_invariant(self);
        }
        self.name.as_slice()
    }
}

impl Clone for FieldName {
    fn clone(&self) -> (r: Self)
        ensures
            r@ == self@,
    {
        proof {
            use_type_invariant(self);
        }
        FieldName { name: self.name.clone() }
    }
}

impl Default for FieldName {
    /// The empty name.
    fn default() -> (r: Self)
        ensures
            r@ == Seq::<u8>::empty(),
    {
        FieldName { name: NameBytes::new() }
    }
}

impl BinarySerializable for FieldName {
    open spec fn spec_encoding(&self) -> Seq<u8> {
        FieldName::spec_name_encoding(self@)
    }

    fn serialize(&self, buf: &mut [u8]) -> (r: Result<usize, BinarySerializeError>) {
        let name = self.name.as_slice();
        let name_len = name.len();
        if buf.len() < name_len + 1 {
            proof {
                assert(splice(buf@, 0, self.spec_encoding().take(0)) =~= buf@);
            }
            return Err(BinarySerializeError::BufferTooSmall);
        }
        let ghost start = buf@;
        crate::wire::copy_into(buf, 0, name);
        buf[name_len] = 0;
        assert(buf@ =~= splice(start, 0, self.spec_encoding()));
        Ok(name_len + 1)
    }
}

impl BinaryDeserializable for FieldName {
    open spec fn spec_deserialize(buf: Seq<u8>, version: Version) -> Result<(usize, Seq<u8>), DeserializeErrorView> {
        if exists|i: int| is_first_zero(buf, i) {
            let i = choose|i: int| is_first_zero(buf, i);
            if i > FIELD_NAME_MAX_LEN {
                Err(DeserializeErrorView::FieldNameTooLong(i as usize, utf8_lossy(buf.take(i))))
            } else {
                Ok(((i + 1) as usize, buf.take(i)))
            }
        } else {
            Err(DeserializeErrorView::UnterminatedFieldName)
        }
    }

    fn deserialize(buf: &[u8], _version: Version) -> (r: Result<(usize, FieldName), BinaryDeserializeError>) {
        let len = buf.len();
        let mut i: usize = 0;
        while i < len && buf[i] != 0
            invariant
                0 <= i <= len,
                len == buf@.len(),
                forall|j: int| 0 <= j < i ==> buf@[j] != 0,
            decreases len - i,
        {
            i = i + 1;
        }
        if i == len {
            assert(!exists|k: int| is_first_zero(buf@, k));
            return Err(BinaryDeserializeError::UnterminatedFieldName);
        }
        assert(is_first_zero(buf@, i as int));
        let ghost chosen = choose|k: int| is_first_zero(buf@, k);
        assert(chosen == i) by {
            if chosen < i {
                assert(buf@[chosen] != 0);
            } else if chosen > i {
                assert(buf@[i as int] != 0);
            }
        }
        let null_terminator_index = i;
        if null_terminator_index > FIELD_NAME_MAX_LEN {
            let text = lossy_string(&buf[0..null_terminator_index]);
            return Err(BinaryDeserializeError::FieldNameTooLong(null_terminator_index, text));
        }
        let mut name = NameBytes::new();
        let mut k: usize = 0;
        while k < null_terminator_index
            invariant
                0 <= k <= null_terminator_index <= FIELD_NAME_MAX_LEN,
                null_terminator_index < buf@.len(),
                name_bytes_of(name) == buf@.take(k as int),
            decreases null_terminator_index - k,
        {
            match name.push(buf[k]) {
                Ok(()) => {},
                Err(_) => return Err(BinaryDeserializeError::FieldNameStorageError),
            }
            assert(buf@.take(k + 1) =~= buf@.take(k as int).push(buf@[k as int]));
            k = k + 1;
        }
        Ok((null_terminator_index + 1, FieldName { name }))
    }
}

/// A name with no zero byte reads back as itself from its encoding.
pub proof fn lemma_field_name_round_trip(name: Seq<u8>, rest: Seq<u8>, version: Version)
    requires
        name.len() <= FIELD_NAME_MAX_LEN,
        forall|i: int| 0 <= i < name.len() ==> name[i] != 0,
    ensures
        FieldName::spec_deserialize(FieldName::spec_name_encoding(name) + rest, version) == Ok::<
            (usize, Seq<u8>),
            DeserializeErrorView,
        >(((name.len() + 1) as usize, name)),
{
    let buf = FieldName::spec_name_encoding(name) + rest;
    assert(is_first_zero(buf, name.len() as int));
    let chosen = choose|k: int| is_first_zero(buf, k);
    assert(chosen == name.len()) by {
        if chosen < name.len() {
            assert(buf[chosen] == name[chosen]);
        } else if chosen > name.len() {
            assert(buf[name.len() as int] == 0);
        }
    }
    assert(buf.take(name.len() as int) =~= name);
}

// ---------------------------------------------------------------------------
// Values.
// ---------------------------------------------------------------------------

/// The kind of value that is being logged.
#[derive(Debug, Clone, Copy, PartialEq, Eq, Structural, Default)]
pub enum ValueKind {
    /// Encoded as 0.
    #[default]
    U8,
    /// Encoded as 1.
    U16,
    /// Encoded as 2.
    U32,
    /// Encoded as 3.
    U64,
    /// Encoded as 4.
    I8,
    /// Encoded as 5.
    I16,
    /// Encoded as 6.
    I32,
    /// Encoded as 7.
    F32,
    /// Encoded as 8.
    Bool,
}

impl View for ValueKind {
    type V = ValueKind;

    open spec fn view(&self) -> ValueKind {
        *self
    }
}

impl ValueKind {
    /// The byte that encodes this kind.
    pub open spec fn spec_to_u8(self) -> u8 {
        match self {
            ValueKind::U8 => 0,
            ValueKind::U16 => 1,
            ValueKind::U32 => 2,
            ValueKind::U64 => 3,
            ValueKind::I8 => 4,
            ValueKind::I16 => 5,
            ValueKind::I32 => 6,
            ValueKind::F32 => 7,
            ValueKind::Bool => 8,
        }
    }

    /// The kind that a byte encodes, if any.
    pub open spec fn spec_from_u8(value: u8) -> Option<ValueKind> {
        if value == 0 {
            Some(ValueKind::U8)
        } else if value == 1 {
            Some(ValueKind::U16)
        } else if value == 2 {
            Some(ValueKind::U32)
        } else if value == 3 {
            Some(ValueKind::U64)
        } else if value == 4 {
            Some(ValueKind::I8)
        } else if value == 5 {
            Some(ValueKind::I16)
        } else if value == 6 {
            Some(ValueKind::I32)
        } else if value == 7 {
            Some(ValueKind::F32)
        } else if value == 8 {
            Some(ValueKind::Bool)
        } else {
            None
        }
    }

    /// The byte that encodes this kind.
    pub fn to_u8(self) -> (r: u8)
        ensures
            r == self.spec_to_u8(),
    {
        match self {
            ValueKind::U8 => 0,
            ValueKind::U16 => 1,
            ValueKind::U32 => 2,
            ValueKind::U64 => 3,
            ValueKind::I8 => 4,
            ValueKind::I16 => 5,
            ValueKind::I32 => 6,
            ValueKind::F32 => 7,
            ValueKind::Bool => 8,
        }
    }
}

impl TryFrom<u8> for ValueKind {
    type Error = BinaryDeserializeError;

    fn try_from(value: u8) -> (r: Result<ValueKind, BinaryDeserializeError>) {
        if value == 0 {
            Ok(ValueKind::U8)
        } else if value == 1 {
            Ok(ValueKind::U16)
        } else if value == 2 {
            Ok(ValueKind::U32)
        } else if value == 3 {
            Ok(ValueKind::U64)
        } else if value == 4 {
            Ok(ValueKind::I8)
        } else if value == 5 {
            Ok(ValueKind::I16)
        } else if value == 6 {
            Ok(ValueKind::I32)
        } else if value == 7 {
            Ok(ValueKind::F32)
        } else if value == 8 {
            Ok(ValueKind::Bool)
        } else {
            Err(BinaryDeserializeError::InvalidValueKind)
        }
    }
}

impl TryFromSpecImpl<u8> for ValueKind {
    open spec fn obeys_try_from_spec() -> bool {
        true
    }

    open spec fn try_from_spec(value: u8) -> Result<ValueKind, BinaryDeserializeError> {
        match ValueKind::spec_from_u8(value) {
            Some(k) => Ok(k),
            None => Err(BinaryDeserializeError::InvalidValueKind),
        }
    }
}

/// Every kind is read back from its own byte, and a byte that reads as a
/// kind is that kind's byte. The bytes are 0 to 8, in the order `U8`,
/// `U16`, `U32`, `U64`, `I8`, `I16`, `I32`, `F32`, `Bool`; any other byte is
/// no kind.
pub proof fn lemma_value_kind_round_trip(kind: ValueKind, value: u8)
    ensures
        ValueKind::U8.spec_to_u8() == 0,
        ValueKind::U16.spec_to_u8() == 1,
        ValueKind::U32.spec_to_u8() == 2,
        ValueKind::U64.spec_to_u8() == 3,
        ValueKind::I8.spec_to_u8() == 4,
        ValueKind::I16.spec_to_u8() == 5,
        ValueKind::I32.spec_to_u8() == 6,
        ValueKind::F32.spec_to_u8() == 7,
        ValueKind::Bool.spec_to_u8() == 8,
        ValueKind::spec_from_u8(value) is Some <==> value <= 8,
        ValueKind::spec_from_u8(kind.spec_to_u8()) == Some(kind),
        ValueKind::spec_from_u8(value) matches Some(k) ==> k.spec_to_u8() == value,
{
}

/// What a [`ValueDef`] says.
pub struct ValueDefView {
    pub name: Seq<u8>,
    pub kind: ValueKind,
    pub count: u8,
}

/// The definition of a value that is part of a packet.
#[derive(Debug, Clone, PartialEq, Eq)]
pub struct ValueDef {
    /// The name of the value.
    pub name: FieldName,
    /// The kind of value that is being logged.
    pub kind: ValueKind,
    /// Number of this kind of value.
    pub count: u8,
}

impl View for ValueDef {
    type V = ValueDefView;

    open spec fn view(&self) -> ValueDefView {
        ValueDefView { name: self.name@, kind: self.kind, count: self.count }
    }
}

impl Default for ValueDef {
    /// An unnamed single `U8` value.
    fn default() -> (r: Self)
        ensures
            r@ == (ValueDefView { name: Seq::empty(), kind: ValueKind::U8, count: 1 }),
    {
        Self { name: FieldName::default(), kind: ValueKind::U8, count: 1 }
    }
}

impl ValueDef {
    /// The bytes that encode a value definition: its name's encoding, the
    /// kind's byte and the count.
    pub open spec fn spec_def_encoding(v: ValueDefView) -> Seq<u8> {
        FieldName::spec_name_encoding(v.name) + seq![v.kind.spec_to_u8(), v.count]
    }
}

impl BinarySerializable for ValueDef {
    open spec fn spec_encoding(&self) -> Seq<u8> {
        ValueDef::spec_def_encoding(self@)
    }

    fn serialize(&self, buf: &mut [u8]) -> (r: Result<usize, BinarySerializeError>) {
        proof {
            use_type_invariant(&self.name);
        }
        let ghost start = buf@;
        let name_size = match self.name.serialize(buf) {
            Ok(n) => n,
            Err(e) => {
                proof {
                    let k = choose|k: int|
                        0 <= k <= self.name.spec_encoding().len() && k <= start.len() && #[trigger] splice(
                            start,
                            0,
                            self.name.spec_encoding().take(k),
                        ) == buf@;
                    assert(self.name.spec_encoding().take(k) =~= self.spec_encoding().take(k));
                }
                return Err(e);
            },
        };
        if buf.len() < name_size + 2 {
            proof {
                assert(self.name.spec_encoding() =~= self.spec_encoding().take(name_size as int));
            }
            return Err(BinarySerializeError::BufferTooSmall);
        }
        buf[name_size] = self.kind.to_u8();
        buf[name_size + 1] = self.count;
        assert(buf@ =~= splice(start, 0, self.spec_encoding()));
        Ok(name_size + 2)
    }
}

impl BinaryDeserializable for ValueDef {
    open spec fn spec_deserialize(buf: Seq<u8>, version: Version) -> Result<(usize, ValueDefView), DeserializeErrorView> {
        match FieldName::spec_deserialize(buf, version) {
            Err(e) => Err(e),
            Ok((n, name)) => if buf.len() < n + 2 {
                Err(DeserializeErrorView::BufferTooSmall)
            } else {
                match ValueKind::spec_from_u8(buf[n as int]) {
                    None => Err(DeserializeErrorView::InvalidValueKind),
                    Some(kind) => Ok(((n + 2) as usize, ValueDefView { name, kind, count: buf[n + 1] })),
                }
            },
        }
    }

    fn deserialize(buf: &[u8], version: Version) -> (r: Result<(usize, ValueDef), BinaryDeserializeError>) {
        let (name_size, name) = match FieldName::deserialize(buf, version) {
            Ok(x) => x,
            Err(e) => return Err(e),
        };
        if buf.len() < name_size + 2 {
            return Err(BinaryDeserializeError::BufferTooSmall);
        }
        let kind = match ValueKind::try_from(buf[name_size]) {
            Ok(k) => k,
            Err(e) => return Err(e),
        };
        let count = buf[name_size + 1];
        Ok((name_size + 2, ValueDef { name, kind, count }))
    }
}

/// A value definition whose name has no zero byte reads back as itself from
/// its encoding.
pub proof fn lemma_value_def_round_trip(v: ValueDefView, rest: Seq<u8>, version: Version)
    requires
        v.name.len() <= FIELD_NAME_MAX_LEN,
        forall|i: int| 0 <= i < v.name.len() ==> v.name[i] != 0,
    ensures
        ValueDef::spec_deserialize(ValueDef::spec_def_encoding(v) + rest, version) == Ok::<
            (usize, ValueDefView),
            DeserializeErrorView,
        >((ValueDef::spec_def_encoding(v).len() as usize, v)),
{
    let tail = seq![v.kind.spec_to_u8(), v.count] + rest;
    let buf = ValueDef::spec_def_encoding(v) + rest;
    assert(buf =~= FieldName::spec_name_encoding(v.name) + tail);
    lemma_field_name_round_trip(v.name, tail, version);
    let n: int = v.name.len() as int + 1;
    assert(buf[n] == v.kind.spec_to_u8());
    assert(buf[n + 1] == v.count);
    lemma_value_kind_round_trip(v.kind, 0);
}

// ---------------------------------------------------------------------------
// Packet definitions.
// ---------------------------------------------------------------------------

/// The encodings of the value definitions `vs`, one after the other.
pub open spec fn spec_values_encoding(vs: Seq<ValueDefView>) -> Seq<u8>
    decreases vs.len(),
{
    if vs.len() == 0 {
        Seq::empty()
    } else {
        spec_values_encoding(vs.drop_last()) + ValueDef::spec_def_encoding(vs.last())
    }
}

/// The encoding of the first `j` value definitions starts the encoding of
/// them all.
pub proof fn lemma_values_encoding_prefix(vs: Seq<ValueDefView>, j: int)
    requires
        0 <= j <= vs.len(),
    ensures
        spec_values_encoding(vs.take(j)).len() <= spec_values_encoding(vs).len(),
        spec_values_encoding(vs).take(spec_values_encoding(vs.take(j)).len() as int)
            == spec_values_encoding(vs.take(j)),
    decreases vs.len(),
{
    if j == vs.len() {
        assert(vs.take(j) =~= vs);
        assert(spec_values_encoding(vs).take(spec_values_encoding(vs).len() as int) =~= spec_values_encoding(vs));
    } else {
        let d = vs.drop_last();
        assert(vs.take(j) =~= d.take(j));
        lemma_values_encoding_prefix(d, j);
        let e = spec_values_encoding(vs);
        let ed = spec_values_encoding(d);
        let ej = spec_values_encoding(d.take(j));
        assert(e =~= ed + ValueDef::spec_def_encoding(vs.last()));
        assert(e.take(ej.len() as int) =~= ed.take(ej.len() as int));
    }
}

/// One more value definition's encoding.
pub proof fn lemma_values_encoding_step(vs: Seq<ValueDefView>, i: int)
    requires
        0 <= i < vs.len(),
    ensures
        spec_values_encoding(vs.take(i + 1)) == spec_values_encoding(vs.take(i)) + ValueDef::spec_def_encoding(vs[i]),
{
    assert(vs.take(i + 1).drop_last() =~= vs.take(i));
}

/// What a [`PacketDef`] says.
pub struct PacketDefView {
    pub id: u8,
    pub name: Seq<u8>,
    pub log_to_terminal: bool,
    pub values: Seq<ValueDefView>,
}

/// Definition of a packet in data.
#[derive(Debug, Clone, PartialEq, Eq)]
pub struct PacketDef {
    /// The ID of the packet. Must be unique across all packets in the
    /// metadata block/file.
    pub id: u8,
    /// The name of the packet.
    pub name: FieldName,
    /// When true, this packet should be output to terminal and highlighted
    /// when decoded.
    pub log_to_terminal: bool,
    /// The values that are part of the packet.
    pub values: ValueDefs,
}

impl View for PacketDef {
    type V = PacketDefView;

    open spec fn view(&self) -> PacketDefView {
        PacketDefView {
            id: self.id,
            name: self.name@,
            log_to_terminal: self.log_to_terminal,
            values: values_within(value_defs_of(self.values)),
        }
    }
}

/// A value definition with its name cut to at most [`FIELD_NAME_MAX_LEN`]
/// bytes.
pub open spec fn name_within(v: ValueDefView) -> ValueDefView {
    ValueDefView { name: at_most(v.name, FIELD_NAME_MAX_LEN as int), kind: v.kind, count: v.count }
}

/// At most [`PACKET_DEF_MAX_VALUES`] value definitions, each with a name of
/// at most [`FIELD_NAME_MAX_LEN`] bytes: what the value storage of a packet
/// definition holds.
pub open spec fn values_within(vs: Seq<ValueDefView>) -> Seq<ValueDefView> {
    at_most(vs, PACKET_DEF_MAX_VALUES as int).map_values(|v: ValueDefView| name_within(v))
}

/// Value definitions within the bounds are kept as they are.
pub proof fn lemma_values_within_keeps(vs: Seq<ValueDefView>)
    requires
        vs.len() <= PACKET_DEF_MAX_VALUES,
        forall|i: int| 0 <= i < vs.len() ==> (#[trigger] vs[i]).name.len() <= FIELD_NAME_MAX_LEN,
    ensures
        values_within(vs) == vs,
{
    assert(values_within(vs) =~= vs);
}

/// The views of at most [`PACKET_DEF_MAX_VALUES`] value definitions are
/// within the bounds.
pub proof fn lemma_value_def_views_within(s: Seq<ValueDef>)
    requires
        s.len() <= PACKET_DEF_MAX_VALUES,
    ensures
        values_within(s.map_values(|d: ValueDef| d@)) == s.map_values(|d: ValueDef| d@),
{
    let vs = s.map_values(|d: ValueDef| d@);
    assert forall|i: int| 0 <= i < vs.len() implies (#[trigger] vs[i]).name.len() <= FIELD_NAME_MAX_LEN by {
        FieldName::lemma_len(s[i].name);
    }
    lemma_values_within_keeps(vs);
}

impl PacketDef {
    /// The bytes of the encoding up to the value definitions: the ID, the
    /// name's encoding, the terminal flag and the number of values.
    pub open spec fn spec_head_encoding(p: PacketDefView) -> Seq<u8> {
        seq![p.id] + FieldName::spec_name_encoding(p.name) + seq![
            if p.log_to_terminal {
                1u8
            } else {
                0u8
            },
            p.values.len() as u8,
        ]
    }

    /// The bytes that encode a packet definition in the latest version.
    pub open spec fn spec_def_encoding(p: PacketDefView) -> Seq<u8> {
        PacketDef::spec_head_encoding(p) + spec_values_encoding(p.values)
    }

    /// What reading `count` value definitions one after the other from
    /// `buf`, starting at `start`, gives: where they end and their views.
    /// Storage for more than [`PACKET_DEF_MAX_VALUES`] of them runs out.
    pub open spec fn spec_parse_values(buf: Seq<u8>, start: int, count: nat, version: Version) -> Result<
        (int, Seq<ValueDefView>),
        DeserializeErrorView,
    >
        decreases count,
    {
        if count == 0 {
            Ok((start, Seq::empty()))
        } else {
            match PacketDef::spec_parse_values(buf, start, (count - 1) as nat, version) {
                Err(e) => Err(e),
                Ok((off, items)) => match ValueDef::spec_deserialize(buf.skip(off), version) {
                    Err(e) => Err(e),
                    Ok((n, item)) => if items.len() >= PACKET_DEF_MAX_VALUES {
                        Err(DeserializeErrorView::BufferTooSmall)
                    } else {
                        Ok((off + n, items.push(item)))
                    },
                },
            }
        }
    }
}

impl PacketDef {
    /// Once reading the value definitions fails, reading more of them fails
    /// the same way.
    pub proof fn lemma_parse_values_err(buf: Seq<u8>, start: int, j: nat, m: nat, version: Version)
        requires
            j <= m,
            PacketDef::spec_parse_values(buf, start, j, version) is Err,
        ensures
            PacketDef::spec_parse_values(buf, start, m, version) == PacketDef::spec_parse_values(buf, start, j, version),
        decreases m,
    {
        if j < m {
            PacketDef::lemma_parse_values_err(buf, start, j, (m - 1) as nat, version);
        }
    }
}

impl PacketDef {
    /// Writes the encoding's head: the ID, the name, the terminal flag and
    /// the number of values. Fails exactly when the head does not fit,
    /// having then written a prefix of it.
    fn serialize_head(&self, buf: &mut [u8], num_values: u8) -> (r: Result<usize, BinarySerializeError>)
        requires
            num_values == self@.values.len() as u8,
        ensures
            final(buf)@.len() == old(buf)@.len(),
            r is Ok <==> PacketDef::spec_head_encoding(self@).len() <= old(buf)@.len(),
            r matches Ok(n) ==> n == PacketDef::spec_head_encoding(self@).len() && final(buf)@ == splice(
                old(buf)@,
                0,
                PacketDef::spec_head_encoding(self@),
            ),
            r is Err ==> holds_prefix_of(old(buf)@, final(buf)@, PacketDef::spec_head_encoding(self@)),
    {
        let ghost start = buf@;
        let ghost head = PacketDef::spec_head_encoding(self@);
        proof {
            use_type_invariant(&self.name);
        }
        if buf.len() == 0 {
            assert(splice(start, 0, head.take(0)) =~= start);
            return Err(BinarySerializeError::BufferTooSmall);
        }
        buf[0] = self.id;
        let ghost cur = buf@;
        let ghost rest_after: Seq<u8>;
        let name_result = {
            let (first, rest) = buf.split_at_mut(1);
            let res = self.name.serialize(rest);
            proof {
                rest_after = rest@;
            }
            res
        };
        assert(buf@ == cur.take(1) + rest_after);
        assert(cur =~= splice(start, 0, head.take(1)));
        assert(head.subrange(1, 1 + self.name.spec_encoding().len() as int) =~= self.name.spec_encoding());
        let name_size = match name_result {
            Ok(n) => n,
            Err(e) => {
                proof {
                    crate::wire::lemma_prefix_extends(start, 1, head, self.name.spec_encoding(), rest_after);
                }
                return Err(e);
            },
        };
        assert(buf@ =~= splice(start, 0, head.take(1 + name_size)));
        let offset = 1 + name_size;
        if buf.len() < offset + 2 {
            return Err(BinarySerializeError::BufferTooSmall);
        }
        buf[offset] = if self.log_to_terminal {
            1
        } else {
            0
        };
        buf[offset + 1] = num_values;
        assert(buf@ =~= splice(start, 0, head));
        Ok(offset + 2)
    }
}

/// A prefix of the start of `long` is a prefix of `long`.
proof fn lemma_prefix_of_start(old: Seq<u8>, new: Seq<u8>, short: Seq<u8>, long: Seq<u8>)
    requires
        short.len() <= long.len(),
        long.take(short.len() as int) == short,
        holds_prefix_of(old, new, short),
    ensures
        holds_prefix_of(old, new, long),
{
    let k = choose|k: int| 0 <= k <= short.len() && k <= old.len() && #[trigger] splice(old, 0, short.take(k)) == new;
    assert(long.take(k) =~= short.take(k));
}

impl BinarySerializable for PacketDef {
    open spec fn spec_encoding(&self) -> Seq<u8> {
        PacketDef::spec_def_encoding(self@)
    }

    fn serialize(&self, buf: &mut [u8]) -> (r: Result<usize, BinarySerializeError>) {
        let ghost start = buf@;
        let ghost enc = self.spec_encoding();
        let ghost head = PacketDef::spec_head_encoding(self@);
        let ghost vs = self@.values;
        let values = self.values.as_slice();
        proof {
            lemma_value_def_views_within(values@);
            lemma_concat_value_defs(values@);
            assert(enc.take(head.len() as int) =~= head);
            assert(enc.skip(head.len() as int) =~= spec_values_encoding(vs));
        }
        let offset = match self.serialize_head(buf, values.len() as u8) {
            Ok(n) => n,
            Err(e) => {
                proof {
                    lemma_prefix_of_start(start, buf@, head, enc);
                }
                return Err(e);
            },
        };
        let ghost before = buf@;
        match crate::wire::serialize_all(values, buf, offset) {
            Ok(end) => {
                assert(buf@ =~= splice(start, 0, enc));
                Ok(end)
            },
            Err(e) => {
                proof {
                    assert(before.skip(offset as int) =~= start.skip(offset as int));
                    assert(buf@.take(offset as int) =~= enc.take(offset as int));
                    crate::wire::lemma_prefix_continues(start, offset as int, enc, buf@);
                }
                Err(e)
            },
        }
    }
}

/// Serializing value definitions one after the other writes the encodings of
/// their views one after the other.
pub proof fn lemma_concat_value_defs(s: Seq<ValueDef>)
    ensures
        crate::wire::spec_concat(s) == spec_values_encoding(s.map_values(|d: ValueDef| d@)),
    decreases s.len(),
{
    if s.len() > 0 {
        lemma_concat_value_defs(s.drop_last());
        assert(s.drop_last().map_values(|d: ValueDef| d@) =~= s.map_values(|d: ValueDef| d@).drop_last());
    }
}

impl BinaryDeserializable for PacketDef {
    open spec fn spec_deserialize(buf: Seq<u8>, version: Version) -> Result<(usize, PacketDefView), DeserializeErrorView> {
        match u8::spec_deserialize(buf, version) {
            Err(e) => Err(e),
            Ok((n1, id)) => match FieldName::spec_deserialize(buf.skip(n1 as int), version) {
                Err(e) => Err(e),
                Ok((n2, name)) => {
                    let after_name = n1 + n2;
                    let flag: Result<(int, bool), DeserializeErrorView> = if version == Version::V2 {
                        match u8::spec_deserialize(buf.skip(after_name), version) {
                            Err(e) => Err(e),
                            Ok((n3, b)) => Ok((after_name + n3, b != 0)),
                        }
                    } else {
                        Ok((after_name, false))
                    };
                    match flag {
                        Err(e) => Err(e),
                        Ok((after_flag, log_to_terminal)) => match u8::spec_deserialize(buf.skip(after_flag), version) {
                            Err(e) => Err(e),
                            Ok((n4, count)) => match PacketDef::spec_parse_values(buf, after_flag + n4, count as nat, version) {
                                Err(e) => Err(e),
                                Ok((end, values)) => Ok((end as usize, PacketDefView { id, name, log_to_terminal, values })),
                            },
                        },
                    }
                },
            },
        }
    }

    fn deserialize(buf: &[u8], version: Version) -> (r: Result<(usize, PacketDef), BinaryDeserializeError>) {
        let len = buf.len();
        let (mut offset, id) = match u8::deserialize(buf, version) {
            Ok(x) => x,
            Err(e) => return Err(e),
        };
        let (name_size, name) = match FieldName::deserialize(&buf[offset..len], version) {
            Ok(x) => x,
            Err(e) => {
                assert(buf@.subrange(offset as int, len as int) =~= buf@.skip(offset as int));
                return Err(e);
            },
        };
        assert(buf@.subrange(1, len as int) =~= buf@.skip(1));
        offset = offset + name_size;
        let log_to_terminal = match version {
            Version::V2 => {
                let (flag_size, flag) = match u8::deserialize(&buf[offset..len], version) {
                    Ok(x) => x,
                    Err(e) => {
                        assert(buf@.subrange(offset as int, len as int) =~= buf@.skip(offset as int));
                        return Err(e);
                    },
                };
                assert(buf@.subrange(offset as int, len as int) =~= buf@.skip(offset as int));
                offset = offset + flag_size;
                flag != 0
            },
            Version::V1 => false,
        };
        let (count_size, num_values) = match u8::deserialize(&buf[offset..len], version) {
            Ok(x) => x,
            Err(e) => {
                assert(buf@.subrange(offset as int, len as int) =~= buf@.skip(offset as int));
                return Err(e);
            },
        };
        assert(buf@.subrange(offset as int, len as int) =~= buf@.skip(offset as int));
        offset = offset + count_size;
        let mut values = ValueDefs::new();
        let ghost values_start = offset as int;
        let ghost name_view = name@;
        assert(Self::spec_deserialize(buf@, version) == match PacketDef::spec_parse_values(buf@, values_start, num_values as nat, version) {
            Err(e) => Err(e),
            Ok((end, vals)) => Ok((end as usize, PacketDefView { id, name: name_view, log_to_terminal, values: vals })),
        });
        let mut i: u8 = 0;
        while i < num_values
            invariant
                0 <= i <= num_values,
                len == buf@.len(),
                offset <= len,
                name@ == name_view,
                Self::spec_deserialize(buf@, version) == match PacketDef::spec_parse_values(buf@, values_start, num_values as nat, version) {
                    Err(e) => Err(e),
                    Ok((end, vals)) => Ok((end as usize, PacketDefView { id, name: name_view, log_to_terminal, values: vals })),
                },
                PacketDef::spec_parse_values(buf@, values_start, i as nat, version) == Ok::<
                    (int, Seq<ValueDefView>),
                    DeserializeErrorView,
                >((offset as int, value_defs_of(values))),
                value_defs_of(values).len() <= PACKET_DEF_MAX_VALUES,
                forall|k: int|
                    0 <= k < value_defs_of(values).len() ==> (#[trigger] value_defs_of(values)[k]).name.len()
                        <= FIELD_NAME_MAX_LEN,
            decreases num_values - i,
        {
            let rest = &buf[offset..len];
            assert(rest@ =~= buf@.skip(offset as int));
            let (size, value) = match ValueDef::deserialize(rest, version) {
                Ok(x) => x,
                Err(e) => {
                    proof {
                        PacketDef::lemma_parse_values_err(buf@, values_start, (i + 1) as nat, num_values as nat, version);
                    }
                    return Err(e);
                },
            };
            offset = offset + size;
            proof {
                FieldName::lemma_len(value.name);
            }
            match values.push(value) {
                Ok(()) => {},
                Err(_) => {
                    proof {
                        PacketDef::lemma_parse_values_err(buf@, values_start, (i + 1) as nat, num_values as nat, version);
                    }
                    return Err(BinaryDeserializeError::BufferTooSmall);
                },
            }
            i = i + 1;
        }
        proof {
            lemma_values_within_keeps(value_defs_of(values));
        }
        Ok((offset, PacketDef { id, name, log_to_terminal, values }))
    }
}

/// A name that reads back as itself: at most [`FIELD_NAME_MAX_LEN`] bytes
/// and no zero byte, which would end it early.
pub open spec fn name_round_trips(name: Seq<u8>) -> bool {
    &&& name.len() <= FIELD_NAME_MAX_LEN
    &&& forall|i: int| 0 <= i < name.len() ==> name[i] != 0
}

/// A packet definition that reads back as itself: names that round trip
/// and no more values than a packet definition can hold.
pub open spec fn packet_def_round_trips(p: PacketDefView) -> bool {
    &&& name_round_trips(p.name)
    &&& p.values.len() <= PACKET_DEF_MAX_VALUES
    &&& forall|i: int| 0 <= i < p.values.len() ==> name_round_trips(#[trigger] p.values[i].name)
}

/// Each value definition's encoding takes at most eleven bytes.
proof fn lemma_values_encoding_len(vs: Seq<ValueDefView>)
    requires
        forall|i: int| 0 <= i < vs.len() ==> name_round_trips(#[trigger] vs[i].name),
    ensures
        spec_values_encoding(vs).len() <= 11 * vs.len(),
    decreases vs.len(),
{
    if vs.len() > 0 {
        let d = vs.drop_last();
        assert forall|i: int| 0 <= i < d.len() implies name_round_trips(#[trigger] d[i].name) by {
            assert(d[i] == vs[i]);
        }
        lemma_values_encoding_len(d);
        assert(name_round_trips(vs[vs.len() - 1].name));
    }
}

/// Reading `j` value definitions from where their encodings stand gives the
/// first `j` of them.
#[verifier::spinoff_prover]
#[verifier::rlimit(40)]
proof fn lemma_parse_values_round_trip(buf: Seq<u8>, s: int, vs: Seq<ValueDefView>, j: int, version: Version)
    requires
        0 <= s,
        0 <= j <= vs.len(),
        vs.len() <= PACKET_DEF_MAX_VALUES,
        forall|i: int| 0 <= i < vs.len() ==> name_round_trips(#[trigger] vs[i].name),
        s + spec_values_encoding(vs).len() <= buf.len(),
        buf.subrange(s, s + spec_values_encoding(vs).len()) == spec_values_encoding(vs),
    ensures
        PacketDef::spec_parse_values(buf, s, j as nat, version) == Ok::<(int, Seq<ValueDefView>), DeserializeErrorView>(
            (s + spec_values_encoding(vs.take(j)).len(), vs.take(j)),
        ),
    decreases j,
{
    if j == 0 {
        assert(vs.take(0) =~= Seq::<ValueDefView>::empty());
    } else {
        lemma_parse_values_round_trip(buf, s, vs, j - 1, version);
        lemma_values_encoding_step(vs, j - 1);
        lemma_values_encoding_prefix(vs, j);
        let all = spec_values_encoding(vs);
        let done = spec_values_encoding(vs.take(j - 1));
        let upto = spec_values_encoding(vs.take(j));
        let e = ValueDef::spec_def_encoding(vs[j - 1]);
        let off = s + done.len();
        assert(upto =~= done + e);
        assert(buf.subrange(off, off + e.len()) =~= all.subrange(done.len() as int, done.len() as int + e.len()));
        assert(all.subrange(done.len() as int, done.len() as int + e.len()) =~= upto.subrange(done.len() as int, upto.len() as int));
        assert(buf.skip(off) =~= e + buf.skip(off + e.len()));
        lemma_value_def_round_trip(vs[j - 1], buf.skip(off + e.len()), version);
        assert(vs.take(j - 1).push(vs[j - 1]) =~= vs.take(j));
    }
}

/// A packet definition reads back, in the latest version, as itself from
/// its encoding, whatever follows it.
pub proof fn lemma_packet_def_round_trip(p: PacketDefView, rest: Seq<u8>)
    requires
        packet_def_round_trips(p),
    ensures
        PacketDef::spec_deserialize(PacketDef::spec_def_encoding(p) + rest, Version::V2) == Ok::<
            (usize, PacketDefView),
            DeserializeErrorView,
        >((PacketDef::spec_def_encoding(p).len() as usize, p)),
        PacketDef::spec_def_encoding(p).len() <= 12 + 11 * PACKET_DEF_MAX_VALUES,
{
    lemma_values_encoding_len(p.values);
    let v = Version::V2;
    let head = PacketDef::spec_head_encoding(p);
    let values = spec_values_encoding(p.values);
    let buf = PacketDef::spec_def_encoding(p) + rest;
    let flag: u8 = if p.log_to_terminal {
        1
    } else {
        0
    };
    let name_len = p.name.len() as int;
    assert(buf[0] == p.id);
    assert(buf.skip(1) =~= FieldName::spec_name_encoding(p.name) + (seq![flag, p.values.len() as u8] + values + rest));
    lemma_field_name_round_trip(p.name, seq![flag, p.values.len() as u8] + values + rest, v);
    assert(buf.skip(name_len + 2)[0] == flag);
    assert(buf.skip(name_len + 3)[0] == p.values.len() as u8);
    assert(buf.subrange(head.len() as int, head.len() as int + values.len()) =~= values);
    lemma_parse_values_round_trip(buf, head.len() as int, p.values, p.values.len() as int, v);
    assert(p.values.take(p.values.len() as int) =~= p.values);
}

// ---------------------------------------------------------------------------
// Metadata.
// ---------------------------------------------------------------------------

/// The encodings of the packet definitions `ps`, one after the other.
pub open spec fn spec_packet_defs_encoding(ps: Seq<PacketDefView>) -> Seq<u8>
    decreases ps.len(),
{
    if ps.len() == 0 {
        Seq::empty()
    } else {
        spec_packet_defs_encoding(ps.drop_last()) + PacketDef::spec_def_encoding(ps.last())
    }
}

proof fn lemma_packet_defs_encoding_prefix(ps: Seq<PacketDefView>, j: int)
    requires
        0 <= j <= ps.len(),
    ensures
        spec_packet_defs_encoding(ps.take(j)).len() <= spec_packet_defs_encoding(ps).len(),
        spec_packet_defs_encoding(ps).take(spec_packet_defs_encoding(ps.take(j)).len() as int)
            == spec_packet_defs_encoding(ps.take(j)),
    decreases ps.len(),
{
    if j == ps.len() {
        assert(ps.take(j) =~= ps);
        assert(spec_packet_defs_encoding(ps).take(spec_packet_defs_encoding(ps).len() as int)
            =~= spec_packet_defs_encoding(ps));
    } else {
        let d = ps.drop_last();
        assert(ps.take(j) =~= d.take(j));
        lemma_packet_defs_encoding_prefix(d, j);
        let e = spec_packet_defs_encoding(ps);
        let ed = spec_packet_defs_encoding(d);
        let ej = spec_packet_defs_encoding(d.take(j));
        assert(e.take(ej.len() as int) =~= ed.take(ej.len() as int));
    }
}

proof fn lemma_packet_defs_encoding_step(ps: Seq<PacketDefView>, i: int)
    requires
        0 <= i < ps.len(),
    ensures
        spec_packet_defs_encoding(ps.take(i + 1)) == spec_packet_defs_encoding(ps.take(i))
            + PacketDef::spec_def_encoding(ps[i]),
{
    assert(ps.take(i + 1).drop_last() =~= ps.take(i));
}

/// Serializing packet definitions one after the other writes the encodings
/// of their views one after the other.
proof fn lemma_concat_packet_defs(s: Seq<PacketDef>)
    ensures
        crate::wire::spec_concat(s) == spec_packet_defs_encoding(s.map_values(|d: PacketDef| d@)),
    decreases s.len(),
{
    if s.len() > 0 {
        lemma_concat_packet_defs(s.drop_last());
        assert(s.drop_last().map_values(|d: PacketDef| d@) =~= s.map_values(|d: PacketDef| d@).drop_last());
    }
}

/// The index of the first definition with ID `id` in `ps` is `i`.
pub open spec fn is_first_with_id(ps: Seq<PacketDefView>, id: u8, i: int) -> bool {
    &&& 0 <= i < ps.len()
    &&& ps[i].id == id
    &&& forall|j: int| 0 <= j < i ==> ps[j].id != id
}

/// The metadata that is stored in a block of type
/// [`crate::block::BlockType::Meta`].
#[derive(Debug, Clone, PartialEq, Eq)]
pub struct Metadata {
    /// The packet definitions that are stored in the metadata block.
    pub packet_defs: PacketDefs,
}

impl View for Metadata {
    type V = Seq<PacketDefView>;

    /// The packet definitions, of which there are never more than
    /// [`METADATA_MAX_PACKET_DEFS`], each within the bounds of a packet
    /// definition.
    open spec fn view(&self) -> Seq<PacketDefView> {
        at_most(packet_defs_of(self.packet_defs), METADATA_MAX_PACKET_DEFS as int).map_values(
            |p: PacketDefView| packet_within(p),
        )
    }
}

/// A packet definition with its name and value definitions cut to the
/// bounds of a packet definition.
pub open spec fn packet_within(p: PacketDefView) -> PacketDefView {
    PacketDefView {
        id: p.id,
        name: at_most(p.name, FIELD_NAME_MAX_LEN as int),
        log_to_terminal: p.log_to_terminal,
        values: values_within(p.values),
    }
}

/// The view of a packet definition is within the bounds of one.
pub proof fn lemma_packet_def_within(d: PacketDef)
    ensures
        packet_within(d@) == d@,
        d@.name.len() <= FIELD_NAME_MAX_LEN,
        d@.values.len() <= PACKET_DEF_MAX_VALUES,
        forall|i: int| 0 <= i < d@.values.len() ==> (#[trigger] d@.values[i]).name.len() <= FIELD_NAME_MAX_LEN,
{
    FieldName::lemma_len(d.name);
    let vs = values_within(value_defs_of(d.values));
    assert forall|i: int| 0 <= i < vs.len() implies (#[trigger] vs[i]).name.len() <= FIELD_NAME_MAX_LEN by {}
    lemma_values_within_keeps(vs);
    assert(packet_within(d@) =~= d@);
}

/// The views of at most [`METADATA_MAX_PACKET_DEFS`] packet definitions are
/// what metadata holding them views.
pub proof fn lemma_packet_def_views_within(s: Seq<PacketDef>)
    requires
        s.len() <= METADATA_MAX_PACKET_DEFS,
    ensures
        at_most(s.map_values(|d: PacketDef| d@), METADATA_MAX_PACKET_DEFS as int).map_values(
            |p: PacketDefView| packet_within(p),
        ) == s.map_values(|d: PacketDef| d@),
{
    let ps = s.map_values(|d: PacketDef| d@);
    assert forall|i: int| 0 <= i < ps.len() implies packet_within(#[trigger] ps[i]) == ps[i] by {
        lemma_packet_def_within(s[i]);
    }
    assert(at_most(ps, METADATA_MAX_PACKET_DEFS as int).map_values(|p: PacketDefView| packet_within(p)) =~= ps);
}

impl Metadata {
    /// What reading `count` packet definitions one after the other from
    /// `buf`, starting at `start`, gives: where they end and their views.
    /// Storage for more than [`METADATA_MAX_PACKET_DEFS`] of them runs out.
    pub open spec fn spec_parse_defs(buf: Seq<u8>, start: int, count: nat, version: Version) -> Result<
        (int, Seq<PacketDefView>),
        DeserializeErrorView,
    >
        decreases count,
    {
        if count == 0 {
            Ok((start, Seq::empty()))
        } else {
            match Metadata::spec_parse_defs(buf, start, (count - 1) as nat, version) {
                Err(e) => Err(e),
                Ok((off, items)) => match PacketDef::spec_deserialize(buf.skip(off), version) {
                    Err(e) => Err(e),
                    Ok((n, item)) => if items.len() >= METADATA_MAX_PACKET_DEFS {
                        Err(DeserializeErrorView::BufferTooSmall)
                    } else {
                        Ok((off + n, items.push(item)))
                    },
                },
            }
        }
    }

    /// Once reading the packet definitions fails, reading more of them fails
    /// the same way.
    pub proof fn lemma_parse_defs_err(buf: Seq<u8>, start: int, j: nat, m: nat, version: Version)
        requires
            j <= m,
            Metadata::spec_parse_defs(buf, start, j, version) is Err,
        ensures
            Metadata::spec_parse_defs(buf, start, m, version) == Metadata::spec_parse_defs(buf, start, j, version),
        decreases m,
    {
        if j < m {
            Metadata::lemma_parse_defs_err(buf, start, j, (m - 1) as nat, version);
        }
    }

    /// The bytes that encode metadata: the number of packet definitions and
    /// their encodings. The version is the block header's.
    pub open spec fn spec_metadata_encoding(ps: Seq<PacketDefView>) -> Seq<u8> {
        seq![ps.len() as u8] + spec_packet_defs_encoding(ps)
    }

    /// Creates metadata with no packet definitions.
    pub fn empty() -> (r: Self)
        ensures
            r@ == Seq::<PacketDefView>::empty(),
    {
        Self { packet_defs: PacketDefs::new() }
    }

    /// Finds the first packet definition with the given ID.
    pub fn find_packet_def(&self, id: u8) -> (r: Option<&PacketDef>)
        ensures
            r is Some <==> exists|i: int| 0 <= i < self@.len() && self@[i].id == id,
            r matches Some(d) ==> exists|i: int| is_first_with_id(self@, id, i) && d@ == self@[i],
    {
        let defs = self.packet_defs.as_slice();
        proof {
            lemma_packet_def_views_within(defs@);
        }
        let n = defs.len();
        let mut i: usize = 0;
        while i < n
            invariant
                0 <= i <= n,
                n == defs@.len(),
                defs@.map_values(|d: PacketDef| d@) == self@,
                forall|j: int| 0 <= j < i ==> self@[j].id != id,
            decreases n - i,
        {
            assert(defs@[i as int]@ == self@[i as int]);
            if defs[i].id == id {
                assert(is_first_with_id(self@, id, i as int));
                return Some(&defs[i]);
            }
            i = i + 1;
        }
        None
    }
}

impl BinarySerializable for Metadata {
    open spec fn spec_encoding(&self) -> Seq<u8> {
        Metadata::spec_metadata_encoding(self@)
    }

    fn serialize(&self, buf: &mut [u8]) -> (r: Result<usize, BinarySerializeError>) {
        let ghost start = buf@;
        let ghost enc = self.spec_encoding();
        let defs = self.packet_defs.as_slice();
        proof {
            lemma_packet_def_views_within(defs@);
        }
        proof {
            lemma_concat_packet_defs(defs@);
            assert(enc.skip(1) =~= spec_packet_defs_encoding(self@));
        }
        if buf.len() == 0 {
            assert(splice(start, 0, enc.take(0)) =~= start);
            return Err(BinarySerializeError::BufferTooSmall);
        }
        buf[0] = defs.len() as u8;
        let ghost before = buf@;
        match crate::wire::serialize_all(defs, buf, 1) {
            Ok(end) => {
                assert(buf@ =~= splice(start, 0, enc));
                Ok(end)
            },
            Err(e) => {
                proof {
                    assert(before.skip(1) =~= start.skip(1));
                    assert(buf@.take(1) =~= enc.take(1));
                    crate::wire::lemma_prefix_continues(start, 1, enc, buf@);
                }
                Err(e)
            },
        }
    }
}

impl BinaryDeserializable for Metadata {
    open spec fn spec_deserialize(buf: Seq<u8>, version: Version) -> Result<(usize, Seq<PacketDefView>), DeserializeErrorView> {
        match u8::spec_deserialize(buf, version) {
            Err(e) => Err(e),
            Ok((n, count)) => match Metadata::spec_parse_defs(buf, n as int, count as nat, version) {
                Err(e) => Err(e),
                Ok((end, defs)) => Ok((end as usize, defs)),
            },
        }
    }

    fn deserialize(buf: &[u8], version: Version) -> (r: Result<(usize, Metadata), BinaryDeserializeError>) {
        let len = buf.len();
        let (mut offset, num_packet_defs) = match u8::deserialize(buf, version) {
            Ok(x) => x,
            Err(e) => return Err(e),
        };
        let mut packet_defs = PacketDefs::new();
        let ghost defs_start = offset as int;
        let mut i: u8 = 0;
        while i < num_packet_defs
            invariant
                0 <= i <= num_packet_defs,
                len == buf@.len(),
                offset <= len,
                Self::spec_deserialize(buf@, version) == match Metadata::spec_parse_defs(buf@, defs_start, num_packet_defs as nat, version) {
                    Err(e) => Err(e),
                    Ok((end, defs)) => Ok((end as usize, defs)),
                },
                Metadata::spec_parse_defs(buf@, defs_start, i as nat, version) == Ok::<
                    (int, Seq<PacketDefView>),
                    DeserializeErrorView,
                >((offset as int, packet_defs_of(packet_defs))),
                packet_defs_of(packet_defs).len() <= METADATA_MAX_PACKET_DEFS,
                forall|k: int|
                    0 <= k < packet_defs_of(packet_defs).len() ==> packet_within(#[trigger] packet_defs_of(packet_defs)[k])
                        == packet_defs_of(packet_defs)[k],
            decreases num_packet_defs - i,
        {
            let rest = &buf[offset..len];
            assert(rest@ =~= buf@.skip(offset as int));
            let (size, packet_def) = match PacketDef::deserialize(rest, version) {
                Ok(x) => x,
                Err(e) => {
                    proof {
                        Metadata::lemma_parse_defs_err(buf@, defs_start, (i + 1) as nat, num_packet_defs as nat, version);
                    }
                    return Err(e);
                },
            };
            offset = offset + size;
            proof {
                lemma_packet_def_within(packet_def);
            }
            match packet_defs.push(packet_def) {
                Ok(()) => {},
                Err(_) => {
                    proof {
                        Metadata::lemma_parse_defs_err(buf@, defs_start, (i + 1) as nat, num_packet_defs as nat, version);
                    }
                    return Err(BinaryDeserializeError::BufferTooSmall);
                },
            }
            i = i + 1;
        }
        proof {
            let ps = packet_defs_of(packet_defs);
            assert(at_most(ps, METADATA_MAX_PACKET_DEFS as int).map_values(|p: PacketDefView| packet_within(p)) =~= ps);
        }
        Ok((offset, Metadata { packet_defs }))
    }
}

/// Reading `j` packet definitions from where their encodings stand gives the
/// first `j` of them.
#[verifier::rlimit(40)]
proof fn lemma_parse_defs_round_trip(buf: Seq<u8>, s: int, ps: Seq<PacketDefView>, j: int)
    requires
        0 <= s,
        0 <= j <= ps.len(),
        ps.len() <= METADATA_MAX_PACKET_DEFS,
        forall|i: int| 0 <= i < ps.len() ==> packet_def_round_trips(#[trigger] ps[i]),
        s + spec_packet_defs_encoding(ps).len() <= buf.len(),
        buf.subrange(s, s + spec_packet_defs_encoding(ps).len()) == spec_packet_defs_encoding(ps),
    ensures
        Metadata::spec_parse_defs(buf, s, j as nat, Version::V2) == Ok::<(int, Seq<PacketDefView>), DeserializeErrorView>(
            (s + spec_packet_defs_encoding(ps.take(j)).len(), ps.take(j)),
        ),
    decreases j,
{
    if j == 0 {
        assert(ps.take(0) =~= Seq::<PacketDefView>::empty());
    } else {
        lemma_parse_defs_round_trip(buf, s, ps, j - 1);
        let done = spec_packet_defs_encoding(ps.take(j - 1));
        let e = PacketDef::spec_def_encoding(ps[j - 1]);
        let off = s + done.len();
        assert(off + e.len() <= buf.len() && buf.skip(off) == e + buf.skip(off + e.len())) by {
            lemma_packet_defs_encoding_step(ps, j - 1);
            lemma_packet_defs_encoding_prefix(ps, j);
            let all = spec_packet_defs_encoding(ps);
            let upto = spec_packet_defs_encoding(ps.take(j));
            assert(upto =~= done + e);
            assert(buf.subrange(off, off + e.len()) =~= all.subrange(done.len() as int, done.len() as int + e.len()));
            assert(all.subrange(done.len() as int, done.len() as int + e.len()) =~= upto.subrange(done.len() as int, upto.len() as int));
            assert(buf.skip(off) =~= e + buf.skip(off + e.len()));
        }
        assert(packet_def_round_trips(ps[j - 1]));
        lemma_packet_def_round_trip(ps[j - 1], buf.skip(off + e.len()));
        assert(spec_packet_defs_encoding(ps.take(j)) == done + e) by {
            lemma_packet_defs_encoding_step(ps, j - 1);
        }
        assert(ps.take(j - 1).push(ps[j - 1]) =~= ps.take(j));
    }
}

/// Metadata reads back, in the latest version, as itself from its encoding,
/// whatever follows it, when its packet definitions read back as
/// themselves.
pub proof fn lemma_metadata_round_trip(ps: Seq<PacketDefView>, rest: Seq<u8>)
    requires
        ps.len() <= METADATA_MAX_PACKET_DEFS,
        forall|i: int| 0 <= i < ps.len() ==> packet_def_round_trips(#[trigger] ps[i]),
    ensures
        Metadata::spec_deserialize(Metadata::spec_metadata_encoding(ps) + rest, Version::V2) == Ok::<
            (usize, Seq<PacketDefView>),
            DeserializeErrorView,
        >((Metadata::spec_metadata_encoding(ps).len() as usize, ps)),
{
    let buf = Metadata::spec_metadata_encoding(ps) + rest;
    let defs = spec_packet_defs_encoding(ps);
    assert(buf[0] == ps.len() as u8);
    assert(buf.subrange(1, 1 + defs.len() as int) =~= defs);
    lemma_parse_defs_round_trip(buf, 1, ps, ps.len() as int);
    assert(ps.take(ps.len() as int) =~= ps);
}

// ---------------------------------------------------------------------------
// Reading V1 logs.
// ---------------------------------------------------------------------------

/// The bytes that encode a packet definition in V1: as in the latest
/// version, but with no terminal flag.
pub open spec fn spec_def_encoding_v1(p: PacketDefView) -> Seq<u8> {
    seq![p.id] + FieldName::spec_name_encoding(p.name) + seq![p.values.len() as u8] + spec_values_encoding(p.values)
}

/// A packet definition that is not logged to the terminal reads back, in
/// V1, as itself from its V1 encoding, whatever follows it.
pub proof fn lemma_packet_def_round_trip_v1(p: PacketDefView, rest: Seq<u8>)
    requires
        packet_def_round_trips(p),
        !p.log_to_terminal,
    ensures
        PacketDef::spec_deserialize(spec_def_encoding_v1(p) + rest, Version::V1) == Ok::<
            (usize, PacketDefView),
            DeserializeErrorView,
        >((spec_def_encoding_v1(p).len() as usize, p)),
        spec_def_encoding_v1(p).len() <= 12 + 11 * PACKET_DEF_MAX_VALUES,
{
    lemma_values_encoding_len(p.values);
    let v = Version::V1;
    let values = spec_values_encoding(p.values);
    let buf = spec_def_encoding_v1(p) + rest;
    let name_len = p.name.len() as int;
    let head_len = name_len + 3;
    assert(buf[0] == p.id);
    assert(buf.skip(1) =~= FieldName::spec_name_encoding(p.name) + (seq![p.values.len() as u8] + values + rest));
    lemma_field_name_round_trip(p.name, seq![p.values.len() as u8] + values + rest, v);
    assert(buf.skip(name_len + 2)[0] == p.values.len() as u8);
    assert(buf.subrange(head_len, head_len + values.len()) =~= values);
    lemma_parse_values_round_trip(buf, head_len, p.values, p.values.len() as int, v);
    assert(p.values.take(p.values.len() as int) =~= p.values);
}

/// The V1 encodings of the packet definitions `ps`, one after the other.
pub open spec fn spec_packet_defs_encoding_v1(ps: Seq<PacketDefView>) -> Seq<u8>
    decreases ps.len(),
{
    if ps.len() == 0 {
        Seq::empty()
    } else {
        spec_packet_defs_encoding_v1(ps.drop_last()) + spec_def_encoding_v1(ps.last())
    }
}

proof fn lemma_packet_defs_encoding_v1_prefix(ps: Seq<PacketDefView>, j: int)
    requires
        0 <= j <= ps.len(),
    ensures
        spec_packet_defs_encoding_v1(ps.take(j)).len() <= spec_packet_defs_encoding_v1(ps).len(),
        spec_packet_defs_encoding_v1(ps).take(spec_packet_defs_encoding_v1(ps.take(j)).len() as int)
            == spec_packet_defs_encoding_v1(ps.take(j)),
    decreases ps.len(),
{
    if j == ps.len() {
        assert(ps.take(j) =~= ps);
        assert(spec_packet_defs_encoding_v1(ps).take(spec_packet_defs_encoding_v1(ps).len() as int)
            =~= spec_packet_defs_encoding_v1(ps));
    } else {
        let d = ps.drop_last();
        assert(ps.take(j) =~= d.take(j));
        lemma_packet_defs_encoding_v1_prefix(d, j);
        let e = spec_packet_defs_encoding_v1(ps);
        let ed = spec_packet_defs_encoding_v1(d);
        let ej = spec_packet_defs_encoding_v1(d.take(j));
        assert(e.take(ej.len() as int) =~= ed.take(ej.len() as int));
    }
}

proof fn lemma_packet_defs_encoding_v1_step(ps: Seq<PacketDefView>, i: int)
    requires
        0 <= i < ps.len(),
    ensures
        spec_packet_defs_encoding_v1(ps.take(i + 1)) == spec_packet_defs_encoding_v1(ps.take(i))
            + spec_def_encoding_v1(ps[i]),
{
    assert(ps.take(i + 1).drop_last() =~= ps.take(i));
}

/// Reading `j` packet definitions in V1 from where their V1 encodings stand
/// gives the first `j` of them.
#[verifier::rlimit(40)]
proof fn lemma_parse_defs_round_trip_v1(buf: Seq<u8>, s: int, ps: Seq<PacketDefView>, j: int)
    requires
        0 <= s,
        0 <= j <= ps.len(),
        ps.len() <= METADATA_MAX_PACKET_DEFS,
        forall|i: int| 0 <= i < ps.len() ==> packet_def_round_trips(#[trigger] ps[i]) && !ps[i].log_to_terminal,
        s + spec_packet_defs_encoding_v1(ps).len() <= buf.len(),
        buf.subrange(s, s + spec_packet_defs_encoding_v1(ps).len()) == spec_packet_defs_encoding_v1(ps),
    ensures
        Metadata::spec_parse_defs(buf, s, j as nat, Version::V1) == Ok::<(int, Seq<PacketDefView>), DeserializeErrorView>(
            (s + spec_packet_defs_encoding_v1(ps.take(j)).len(), ps.take(j)),
        ),
    decreases j,
{
    if j == 0 {
        assert(ps.take(0) =~= Seq::<PacketDefView>::empty());
    } else {
        lemma_parse_defs_round_trip_v1(buf, s, ps, j - 1);
        let done = spec_packet_defs_encoding_v1(ps.take(j - 1));
        let e = spec_def_encoding_v1(ps[j - 1]);
        let off = s + done.len();
        assert(off + e.len() <= buf.len() && buf.skip(off) == e + buf.skip(off + e.len())) by {
            lemma_packet_defs_encoding_v1_step(ps, j - 1);
            lemma_packet_defs_encoding_v1_prefix(ps, j);
            let all = spec_packet_defs_encoding_v1(ps);
            let upto = spec_packet_defs_encoding_v1(ps.take(j));
            assert(upto =~= done + e);
            assert(buf.subrange(off, off + e.len()) =~= all.subrange(done.len() as int, done.len() as int + e.len()));
            assert(all.subrange(done.len() as int, done.len() as int + e.len()) =~= upto.subrange(done.len() as int, upto.len() as int));
            assert(buf.skip(off) =~= e + buf.skip(off + e.len()));
        }
        assert(packet_def_round_trips(ps[j - 1]) && !ps[j - 1].log_to_terminal);
        lemma_packet_def_round_trip_v1(ps[j - 1], buf.skip(off + e.len()));
        assert(spec_packet_defs_encoding_v1(ps.take(j)) == done + e) by {
            lemma_packet_defs_encoding_v1_step(ps, j - 1);
        }
        assert(ps.take(j - 1).push(ps[j - 1]) =~= ps.take(j));
    }
}

/// Metadata of a V1 log reads back, in V1, as its packet definitions: the
/// number of definitions, then each definition's V1 encoding, with no
/// terminal flag, reads as those definitions, not logged to the terminal,
/// whatever follows.
pub proof fn lemma_metadata_round_trip_v1(ps: Seq<PacketDefView>, rest: Seq<u8>)
    requires
        ps.len() <= METADATA_MAX_PACKET_DEFS,
        forall|i: int| 0 <= i < ps.len() ==> packet_def_round_trips(#[trigger] ps[i]) && !ps[i].log_to_terminal,
    ensures
        Metadata::spec_deserialize(seq![ps.len() as u8] + spec_packet_defs_encoding_v1(ps) + rest, Version::V1)
            == Ok::<(usize, Seq<PacketDefView>), DeserializeErrorView>(
            ((1 + spec_packet_defs_encoding_v1(ps).len()) as usize, ps),
        ),
{
    let defs = spec_packet_defs_encoding_v1(ps);
    let buf = seq![ps.len() as u8] + defs + rest;
    assert(buf[0] == ps.len() as u8);
    assert(buf.subrange(1, 1 + defs.len() as int) =~= defs);
    lemma_parse_defs_round_trip_v1(buf, 1, ps, ps.len() as int);
    assert(ps.take(ps.len() as int) =~= ps);
}

/// The name of the packet definition `p` and those of its values hold no
/// zero byte, which would end them early when read.
pub open spec fn names_without_zero(p: PacketDefView) -> bool {
    &&& forall|k: int| 0 <= k < p.name.len() ==> p.name[k] != 0
    &&& forall|j: int, k: int|
        0 <= j < p.values.len() && 0 <= k < p.values[j].name.len() ==> #[trigger] p.values[j].name[k] != 0
}

/// Every packet definition whose names hold no zero byte reads back, from
/// its encoding, as itself.
pub proof fn lemma_packet_def_reads_back(d: PacketDef, rest: Seq<u8>)
    requires
        names_without_zero(d@),
    ensures
        PacketDef::spec_deserialize(d.spec_encoding() + rest, Version::V2) == Ok::<
            (usize, PacketDefView),
            DeserializeErrorView,
        >((d.spec_encoding().len() as usize, d@)),
{
    lemma_packet_def_within(d);
    let p = d@;
    assert forall|i: int| 0 <= i < p.values.len() implies name_round_trips(#[trigger] p.values[i].name) by {
        assert forall|k: int| 0 <= k < p.values[i].name.len() implies p.values[i].name[k] != 0 by {
            assert(p.values[i].name[k] != 0);
        }
    }
    lemma_packet_def_round_trip(p, rest);
}

/// Every metadata whose names hold no zero byte reads back, from its
/// encoding, as itself.
pub proof fn lemma_metadata_reads_back(m: Metadata, rest: Seq<u8>)
    requires
        forall|i: int| 0 <= i < m@.len() ==> names_without_zero(#[trigger] m@[i]),
    ensures
        Metadata::spec_deserialize(m.spec_encoding() + rest, Version::V2) == Ok::<
            (usize, Seq<PacketDefView>),
            DeserializeErrorView,
        >((m.spec_encoding().len() as usize, m@)),
{
    let ps = m@;
    assert forall|i: int| 0 <= i < ps.len() implies packet_def_round_trips(#[trigger] ps[i]) by {
        let p = ps[i];
        assert(names_without_zero(p));
        assert forall|j: int| 0 <= j < p.values.len() implies name_round_trips(#[trigger] p.values[j].name) by {
            assert forall|k: int| 0 <= k < p.values[j].name.len() implies p.values[j].name[k] != 0 by {
                assert(p.values[j].name[k] != 0);
            }
        }
    }
    lemma_metadata_round_trip(ps, rest);
}

/// Every metadata whose names hold no zero byte and whose packet
/// definitions are not logged to the terminal reads back, in V1, as itself
/// from its V1 encoding.
pub proof fn lemma_metadata_reads_back_v1(m: Metadata, rest: Seq<u8>)
    requires
        forall|i: int| 0 <= i < m@.len() ==> names_without_zero(#[trigger] m@[i]) && !m@[i].log_to_terminal,
    ensures
        Metadata::spec_deserialize(seq![m@.len() as u8] + spec_packet_defs_encoding_v1(m@) + rest, Version::V1)
            == Ok::<(usize, Seq<PacketDefView>), DeserializeErrorView>(
            ((1 + spec_packet_defs_encoding_v1(m@).len()) as usize, m@),
        ),
{
    let ps = m@;
    assert forall|i: int| 0 <= i < ps.len() implies packet_def_round_trips(#[trigger] ps[i]) && !ps[i].log_to_terminal by {
        let p = ps[i];
        assert(names_without_zero(p));
        assert forall|j: int| 0 <= j < p.values.len() implies name_round_trips(#[trigger] p.values[j].name) by {
            assert forall|k: int| 0 <= k < p.values[j].name.len() implies p.values[j].name[k] != 0 by {
                assert(p.values[j].name[k] != 0);
            }
        }
    }
    lemma_metadata_round_trip_v1(ps, rest);
}

} // verus!
