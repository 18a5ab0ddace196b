//! Concrete cases of what the library promises of its format as a whole,
//! and of its edge cases and errors.

use pk_flight_log::block::{BlockHeader, BlockType, BlockWriter, HEADER_SIZE};
use pk_flight_log::crc32::{Crc32Interface, SoftwareCrc32};
use pk_flight_log::metadata::{
    FieldName, Metadata, PacketDef, PacketDefs, ValueDef, ValueDefs, ValueKind,
};
use pk_flight_log::packet::{time_sync_packet_def, PacketHeader, PacketValueReader, PacketWriter};
use pk_flight_log::value::PacketValue;
use pk_flight_log::{
    BinaryDeserializable, BinaryDeserializeError, BinarySerializable, DeserializeContext,
    Version, BLOCK_SIZE,
};

fn header(block_type: BlockType) -> BlockHeader {
    BlockHeader {
        version: Version::LATEST,
        block_type,
        size: 0,
        block_index: 42,
        timestamp: 0x0102_0304_0506_0708,
        header_crc: 0,
    }
}

fn value_def(name: &str, kind: ValueKind, count: u8) -> ValueDef {
    ValueDef {
        name: FieldName::from_str_truncating(name),
        kind,
        count,
    }
}

#[test]
fn block_header_bytes_are_exact() {
    let mut buf = [0xEEu8; 24];
    let h = BlockHeader {
        version: Version::V2,
        block_type: BlockType::Data,
        size: 0x0102,
        block_index: 0x0304_0506,
        timestamp: 0x0708_090A_0B0C_0D0E,
        header_crc: 0xFFFF_FFFF,
    };
    let n = h.serialize(&mut buf, &mut SoftwareCrc32::new()).unwrap();
    assert_eq!(n, 20);
    assert_eq!(
        &buf[..16],
        &[1, 1, 0x02, 0x01, 0x06, 0x05, 0x04, 0x03, 0x0E, 0x0D, 0x0C, 0x0B, 0x0A, 0x09, 0x08, 0x07]
    );
    let crc = SoftwareCrc32::new().crc32(&buf[..16]);
    assert_eq!(&buf[16..20], &crc.to_le_bytes());
    // The header's CRC is the checksum of its first sixteen bytes, not the
    // argument handed back unchanged.
    assert_ne!(crc, 0);
    assert_eq!(&buf[20..], &[0xEE; 4]);
}

#[test]
fn block_header_too_small_buffer_writes_nothing() {
    let mut buf = [0xAAu8; 19];
    assert!(header(BlockType::Data).serialize(&mut buf, &mut SoftwareCrc32::new()).is_err());
    assert_eq!(buf, [0xAAu8; 19]);
}

#[test]
fn block_header_round_trip_and_crc_validates() {
    let mut buf = [0u8; 20];
    let h = header(BlockType::Meta);
    h.serialize(&mut buf, &mut SoftwareCrc32::new()).unwrap();
    let (n, back) = BlockHeader::deserialize(&buf, Version::V1).unwrap();
    assert_eq!(n, 20);
    assert_eq!(back.version, h.version);
    assert_eq!(back.block_type, h.block_type);
    assert_eq!(back.size, h.size);
    assert_eq!(back.block_index, h.block_index);
    assert_eq!(back.timestamp, h.timestamp);
    assert_eq!(back.header_crc, SoftwareCrc32::new().crc32(&buf[..16]));
    assert!(SoftwareCrc32::new().validate_crc32(&buf));
}

#[test]
fn block_header_errors() {
    let mut buf = [0u8; 20];
    header(BlockType::Data).serialize(&mut buf, &mut SoftwareCrc32::new()).unwrap();
    assert_eq!(
        BlockHeader::deserialize(&buf[..19], Version::LATEST),
        Err(BinaryDeserializeError::BufferTooSmall)
    );
    let mut bad_version = buf;
    bad_version[0] = 2;
    assert_eq!(
        BlockHeader::deserialize(&bad_version, Version::LATEST),
        Err(BinaryDeserializeError::InvalidVersion)
    );
    let mut bad_type = buf;
    bad_type[1] = 2;
    assert_eq!(
        BlockHeader::deserialize(&bad_type, Version::LATEST),
        Err(BinaryDeserializeError::InvalidBlockType)
    );
}

#[test]
fn finished_block_is_valid() {
    let mut buf = [0u8; BLOCK_SIZE];
    let mut writer = BlockWriter::new(&mut buf, header(BlockType::Data));
    writer.write(&[1, 2, 3, 4, 5]).unwrap();
    writer.write(&[6, 7]).unwrap();
    assert_eq!(writer.space(), BLOCK_SIZE - 20 - 7 - 4);
    let mut crc = SoftwareCrc32::new();
    writer.finish(&mut crc);

    let (_, back) = BlockHeader::deserialize(&buf, Version::LATEST).unwrap();
    assert_eq!(back.size, 7);
    assert_eq!(back.block_index, 42);
    assert!(crc.validate_crc32(&buf[..20]));
    assert_eq!(&buf[20..27], &[1, 2, 3, 4, 5, 6, 7]);
    assert!(crc.validate_crc32(&buf[20..31]));
    let mut corrupted = buf;
    corrupted[22] ^= 0x10;
    assert!(!crc.validate_crc32(&corrupted[20..31]));
}

#[test]
fn meta_block_too_large_fails_but_marks_meta() {
    let mut defs = Vec::new();
    for id in 0..16u8 {
        let values: Vec<ValueDef> = (0..32).map(|_| value_def("longname", ValueKind::U64, 200)).collect();
        defs.push(PacketDef {
            id,
            name: FieldName::from_str_truncating("pktname1"),
            log_to_terminal: false,
            values: ValueDefs::from_slice(&values).unwrap(),
        });
    }
    let meta = Metadata { packet_defs: PacketDefs::from_slice(&defs).unwrap() };
    let mut buf = [0u8; BLOCK_SIZE];
    let mut writer = BlockWriter::new(&mut buf, header(BlockType::Data));
    assert!(writer.write_meta_block(&meta).is_err());
    assert_eq!(writer.space(), BLOCK_SIZE - HEADER_SIZE as usize - 4);
    let block = writer.finish(&mut SoftwareCrc32::new());
    let (_, h) = BlockHeader::deserialize(&block[..], Version::LATEST).unwrap();
    assert_eq!(h.block_type, BlockType::Meta);
    assert_eq!(h.size, 0);
}

#[test]
fn crc_validation_edges() {
    let mut crc = SoftwareCrc32::new();
    assert!(!crc.validate_crc32(&[]));
    assert!(!crc.validate_crc32(&[1, 2, 3]));
    let data = b"flight";
    let mut with_crc = data.to_vec();
    with_crc.extend_from_slice(&crc.crc32(data).to_le_bytes());
    assert!(crc.validate_crc32(&with_crc));
    // The CRC of the empty message.
    assert_eq!(crc.crc32(&[]), 0);
}

#[test]
fn version_bytes() {
    assert!(Version::is_valid_u8(0));
    assert!(Version::is_valid_u8(1));
    assert!(!Version::is_valid_u8(2));
    assert_eq!(Version::deserialize(&[1], Version::V1), Ok((1, Version::V2)));
    assert_eq!(Version::deserialize(&[0, 9], Version::V1), Ok((1, Version::V1)));
    assert_eq!(Version::deserialize(&[7], Version::V1), Err(BinaryDeserializeError::InvalidVersion));
    assert_eq!(Version::deserialize(&[], Version::V1), Err(BinaryDeserializeError::BufferTooSmall));
    assert_eq!(Version::V2.to_u8(), 1);
    assert_eq!(pk_flight_log::LATEST_VERSION, Version::V2);
}

#[test]
fn integers_deserialize_little_endian() {
    assert_eq!(u16::deserialize(&[0x34, 0x12, 0xFF], Version::LATEST), Ok((2, 0x1234)));
    assert_eq!(u32::deserialize(&[0x78, 0x56, 0x34, 0x12], Version::LATEST), Ok((4, 0x1234_5678)));
    assert_eq!(
        u64::deserialize(&[8, 7, 6, 5, 4, 3, 2, 1], Version::LATEST),
        Ok((8, 0x0102_0304_0506_0708))
    );
    assert_eq!(u32::deserialize(&[1, 2, 3], Version::LATEST), Err(BinaryDeserializeError::BufferTooSmall));
    assert_eq!(BlockType::deserialize(&[1], Version::LATEST), Ok((1, BlockType::Data)));
    assert_eq!(BlockType::deserialize(&[5], Version::LATEST), Err(BinaryDeserializeError::InvalidBlockType));
}

#[test]
fn deserialize_context_advances() {
    let bytes = [1u8, 0x34, 0x12, 0x78, 0x56, 0x34, 0x12, 9];
    let mut ctx = DeserializeContext::new(&bytes, Version::V1);
    assert_eq!(ctx.deserialize::<Version>(), Ok(Version::V2));
    assert_eq!(ctx.read_u16(), Ok(0x1234));
    assert_eq!(ctx.read_u32(), Ok(0x1234_5678));
    assert_eq!(ctx.total_offset(), 7);
    assert_eq!(ctx.read_u64(), Err(BinaryDeserializeError::BufferTooSmall));
    assert_eq!(ctx.total_offset(), 7);
    assert_eq!(ctx.read_u8(), Ok(9));
    assert_eq!(ctx.total_offset(), 8);
}

#[test]
fn field_name_truncates_on_char_boundary() {
    // "é" takes two bytes and would straddle the eighth byte.
    let name = FieldName::from_str_truncating("abcdefgé");
    assert_eq!(name.inner(), b"abcdefg");
    let name = FieldName::from_str_truncating("abcdefé");
    assert_eq!(name.inner(), "abcdefé".as_bytes());
    assert_eq!(name.to_display_string(), "abcdefé");
    let empty = FieldName::default();
    assert_eq!(empty.inner(), b"");
}

#[test]
fn field_name_display_of_invalid_utf8() {
    let (_, name) = FieldName::deserialize(&[0xFF, 0xFE, 0], Version::LATEST).unwrap();
    assert_eq!(name.to_display_string(), "<invalid UTF-8>");
    let copy = name.clone();
    assert_eq!(copy.inner(), &[0xFF, 0xFE]);
}

#[test]
fn field_name_too_long_carries_its_text() {
    match FieldName::deserialize(b"abcdefghi\0", Version::LATEST) {
        Err(BinaryDeserializeError::FieldNameTooLong(9, text)) => assert_eq!(text, "abcdefghi"),
        other => panic!("unexpected {:?}", other),
    }
    match FieldName::deserialize(&[b'a', 0xFF, b'b', b'c', b'd', b'e', b'f', b'g', b'h', 0], Version::LATEST) {
        Err(BinaryDeserializeError::FieldNameTooLong(9, text)) => assert_eq!(text, "a\u{FFFD}bcdefgh"),
        other => panic!("unexpected {:?}", other),
    }
}

#[test]
fn value_def_errors() {
    assert_eq!(
        ValueDef::deserialize(&[b'a', 0, 9, 1], Version::LATEST),
        Err(BinaryDeserializeError::InvalidValueKind)
    );
    assert_eq!(
        ValueDef::deserialize(&[b'a', 0, 1], Version::LATEST),
        Err(BinaryDeserializeError::BufferTooSmall)
    );
    assert_eq!(ValueKind::try_from(9), Err(BinaryDeserializeError::InvalidValueKind));
    let d = ValueDef::default();
    assert_eq!(d.count, 1);
    assert_eq!(d.kind, ValueKind::U8);
    assert_eq!(d.name.inner(), b"");
}

#[test]
fn packet_def_round_trip_many_values() {
    let values: Vec<ValueDef> = vec![
        value_def("a", ValueKind::I8, 2),
        value_def("bb", ValueKind::Bool, 3),
        value_def("ccc", ValueKind::U64, 1),
    ];
    let pdef = PacketDef {
        id: 3,
        name: FieldName::from_str_truncating("imu"),
        log_to_terminal: false,
        values: ValueDefs::from_slice(&values).unwrap(),
    };
    let mut buf = [0u8; 64];
    let n = pdef.serialize(&mut buf).unwrap();
    assert_eq!(n, 1 + 4 + 2 + 4 + 5 + 6);
    assert_eq!(buf[5], 0);
    assert_eq!(buf[6], 3);
    assert_eq!(PacketDef::deserialize(&buf[..n + 3], Version::V2), Ok((n, pdef)));
}

#[test]
fn packet_def_with_too_many_values_fails_to_read() {
    let mut bytes = vec![1u8, b'p', 0, 0, 33];
    for _ in 0..33 {
        bytes.extend_from_slice(&[b'v', 0, 0, 1]);
    }
    assert_eq!(
        PacketDef::deserialize(&bytes, Version::V2),
        Err(BinaryDeserializeError::BufferTooSmall)
    );
}

#[test]
fn metadata_with_too_many_packet_defs_fails_to_read() {
    let mut bytes = vec![17u8];
    for id in 0..17u8 {
        bytes.extend_from_slice(&[id, b'p', 0, 0, 0]);
    }
    assert_eq!(
        Metadata::deserialize(&bytes, Version::V2),
        Err(BinaryDeserializeError::BufferTooSmall)
    );
    bytes[0] = 16;
    let (n, meta) = Metadata::deserialize(&bytes, Version::V2).unwrap();
    assert_eq!(n, 1 + 16 * 5);
    assert_eq!(meta.find_packet_def(15).map(|d| d.id), Some(15));
    assert_eq!(meta.find_packet_def(16), None);
}

#[test]
fn metadata_serialize_too_small_writes_a_prefix() {
    let meta = Metadata {
        packet_defs: PacketDefs::from_slice(&[time_sync_packet_def()]).unwrap(),
    };
    let mut full = [0u8; 64];
    let n = meta.serialize(&mut full).unwrap();
    let mut small = vec![0xCCu8; n - 1];
    assert!(meta.serialize(&mut small).is_err());
    assert_eq!(small.len(), n - 1);
    assert!(matches!(Metadata::empty().serialize(&mut [0u8; 1]), Ok(1)));
}

#[test]
fn time_sync_definition() {
    let def = time_sync_packet_def();
    assert_eq!(def.id, 0);
    assert_eq!(def.name.inner(), b"timesync");
    assert!(!def.log_to_terminal);
    let values = def.values.as_slice();
    assert_eq!(values.len(), 1);
    assert_eq!(values[0].name.inner(), b"time_us");
    assert_eq!(values[0].kind, ValueKind::U64);
    assert_eq!(values[0].count, 1);
}

#[test]
fn packet_header_and_timestamp() {
    let mut buf = [0u8; 8];
    let mut w = PacketWriter::new(&mut buf, PacketHeader::new(9, 0x0102)).unwrap();
    w.set_timestamp(0xA0B0);
    let (r, h) = PacketValueReader::new(&buf).unwrap();
    assert_eq!(h, PacketHeader::new(9, 0xA0B0));
    assert_eq!(r.used(), 3);
    assert!(PacketValueReader::new(&buf[..2]).is_err());
}

#[test]
fn writer_failures_keep_position() {
    let mut buf = [0u8; 4];
    let mut w = PacketWriter::new(&mut buf, PacketHeader::new(1, 0)).unwrap();
    w.write_bool(true).unwrap();
    // The partial byte takes the last place; a further bit still fits in it.
    w.write_bool(true).unwrap();
    assert!(w.write_u16(1).is_err());
    assert!(!w.has_sub_byte_values());
    assert!(w.write_bool(false).is_err());
    assert_eq!(w.space(), 0);
    assert_eq!(buf[3], 0b11);
}

#[test]
fn reader_signed_values() {
    let bytes = [5u8, 0, 0, 0xFF, 0xFE, 0xFF, 0x00, 0x00, 0x00, 0x80];
    let (mut r, _) = PacketValueReader::new(&bytes).unwrap();
    assert_eq!(r.read_i8(), Ok(-1));
    assert_eq!(r.read_i16(), Ok(-2));
    assert_eq!(r.read_i32(), Ok(i32::MIN));
    assert_eq!(r.read_u8(), Err(BinaryDeserializeError::BufferTooSmall));
    assert_eq!(r.used(), 10);
}

#[test]
fn read_values_unknown_id_is_invalid_data() {
    let bytes = [5u8, 0, 0, 1];
    let (r, _) = PacketValueReader::new(&bytes).unwrap();
    let defs = [PacketDef {
        id: 6,
        name: FieldName::from_str_truncating("x"),
        log_to_terminal: false,
        values: ValueDefs::from_slice(&[value_def("a", ValueKind::U8, 1)]).unwrap(),
    }];
    assert_eq!(r.read_values(&defs), Err(BinaryDeserializeError::InvalidData));
}

#[test]
fn read_values_short_values_give_errors_and_go_on() {
    // One byte left: the u16 does not fit, the u8 after it does.
    let bytes = [5u8, 0, 0, 0x77];
    let (r, _) = PacketValueReader::new(&bytes).unwrap();
    let defs = [PacketDef {
        id: 5,
        name: FieldName::from_str_truncating("x"),
        log_to_terminal: false,
        values: ValueDefs::from_slice(&[value_def("a", ValueKind::U16, 1), value_def("b", ValueKind::U8, 2)]).unwrap(),
    }];
    assert_eq!(
        r.read_values(&defs),
        Ok(vec![
            Err(BinaryDeserializeError::BufferTooSmall),
            Ok(PacketValue::U8(0x77)),
            Err(BinaryDeserializeError::BufferTooSmall),
        ])
    );
}

#[test]
fn read_values_missing_bit_byte_ends_values() {
    let bytes = [5u8, 0, 0, 0x01];
    let (r, _) = PacketValueReader::new(&bytes).unwrap();
    let defs = [PacketDef {
        id: 5,
        name: FieldName::from_str_truncating("x"),
        log_to_terminal: false,
        values: ValueDefs::from_slice(&[value_def("a", ValueKind::U8, 1), value_def("b", ValueKind::Bool, 2)]).unwrap(),
    }];
    assert_eq!(r.read_values(&defs), Ok(vec![Ok(PacketValue::U8(1))]));
}

#[test]
fn read_values_reads_definition_after_bool_run() {
    // Two booleans, then a u8 and a u16, each read from the bytes right
    // after the ones before.
    let bytes = [5u8, 0, 0, 0b10, 0xAB, 0x34, 0x12];
    let (r, _) = PacketValueReader::new(&bytes).unwrap();
    let defs = [PacketDef {
        id: 5,
        name: FieldName::from_str_truncating("x"),
        log_to_terminal: false,
        values: ValueDefs::from_slice(&[
            value_def("a", ValueKind::Bool, 2),
            value_def("b", ValueKind::U8, 1),
            value_def("c", ValueKind::U16, 1),
        ])
        .unwrap(),
    }];
    assert_eq!(
        r.read_values(&defs),
        Ok(vec![
            Ok(PacketValue::Bool(true)),
            Ok(PacketValue::Bool(false)),
            Ok(PacketValue::U8(0xAB)),
            Ok(PacketValue::U16(0x1234)),
        ])
    );
}

#[test]
fn write_bool_then_u8_reads_back() {
    let mut buf = [0u8; 5];
    let mut w = PacketWriter::new(&mut buf, PacketHeader::new(0x42, 0x1234)).unwrap();
    w.write_bool(true).unwrap();
    w.write_u8(0xAB).unwrap();
    assert_eq!(buf, [0x42, 0x34, 0x12, 0x01, 0xAB]);
    let (r, h) = PacketValueReader::new(&buf).unwrap();
    assert_eq!(h, PacketHeader::new(0x42, 0x1234));
    let defs = [PacketDef {
        id: 0x42,
        name: FieldName::from_str_truncating("p"),
        log_to_terminal: false,
        values: ValueDefs::from_slice(&[value_def("a", ValueKind::Bool, 1), value_def("b", ValueKind::U8, 1)]).unwrap(),
    }];
    assert_eq!(
        r.read_values(&defs),
        Ok(vec![Ok(PacketValue::Bool(true)), Ok(PacketValue::U8(0xAB))])
    );
}

#[test]
fn read_values_zero_count_is_invalid_data() {
    let bytes = [5u8, 0, 0, 1];
    let defs = [PacketDef {
        id: 5,
        name: FieldName::from_str_truncating("z"),
        log_to_terminal: false,
        values: ValueDefs::from_slice(&[value_def("a", ValueKind::U8, 0)]).unwrap(),
    }];
    let (r, _) = PacketValueReader::new(&bytes).unwrap();
    assert_eq!(r.read_values(&defs), Err(BinaryDeserializeError::InvalidData));
    // A zero count inside a run of booleans starts no read and is accepted.
    let defs = [PacketDef {
        id: 5,
        name: FieldName::from_str_truncating("z"),
        log_to_terminal: false,
        values: ValueDefs::from_slice(&[value_def("a", ValueKind::Bool, 1), value_def("b", ValueKind::Bool, 0)]).unwrap(),
    }];
    let (r, _) = PacketValueReader::new(&bytes).unwrap();
    assert_eq!(r.read_values(&defs), Ok(vec![Ok(PacketValue::Bool(true))]));
}

#[test]
fn write_then_read_mixed_packet() {
    let mut buf = [0u8; 32];
    let mut w = PacketWriter::new(&mut buf, PacketHeader::new(8, 0x0010)).unwrap();
    w.write_u64(0xDEAD_BEEF_0000_0001).unwrap();
    for b in [true, false, false, true, true, false, true, false, true] {
        w.write_bool(b).unwrap();
    }
    let used = 32 - w.space();
    let (r, h) = PacketValueReader::new(&buf[..used]).unwrap();
    assert_eq!(h.timestamp, 0x0010);
    let defs = [PacketDef {
        id: 8,
        name: FieldName::from_str_truncating("mix"),
        log_to_terminal: true,
        values: ValueDefs::from_slice(&[value_def("t", ValueKind::U64, 1), value_def("f", ValueKind::Bool, 9)]).unwrap(),
    }];
    let mut expected = vec![Ok(PacketValue::U64(0xDEAD_BEEF_0000_0001))];
    for b in [true, false, false, true, true, false, true, false, true] {
        expected.push(Ok(PacketValue::Bool(b)));
    }
    assert_eq!(r.read_values(&defs), Ok(expected));
}

#[test]
fn write_then_read_every_kind() {
    let mut buf = [0u8; 48];
    let mut w = PacketWriter::new(&mut buf, PacketHeader::new(3, 0xBEEF)).unwrap();
    w.write_u8(0xAB).unwrap();
    w.write_u16(0x1234).unwrap();
    w.write_u16(0x5678).unwrap();
    w.write_u32(0x9ABC_DEF0).unwrap();
    w.write_u64(7).unwrap();
    w.write_u8((-5i8) as u8).unwrap();
    w.write_u16((-300i16) as u16).unwrap();
    w.write_u32((-70000i32) as u32).unwrap();
    w.write_u32(1.5f32.to_bits()).unwrap();
    for b in [false, true, true, false] {
        w.write_bool(b).unwrap();
    }
    let used = 48 - w.space();
    assert_eq!(used, 3 + 1 + 4 + 4 + 8 + 1 + 2 + 4 + 4 + 1);
    let (r, h) = PacketValueReader::new(&buf[..used]).unwrap();
    assert_eq!(h, PacketHeader::new(3, 0xBEEF));
    let defs = [PacketDef {
        id: 3,
        name: FieldName::from_str_truncating("all"),
        log_to_terminal: false,
        values: ValueDefs::from_slice(&[
            value_def("a", ValueKind::U8, 1),
            value_def("b", ValueKind::U16, 2),
            value_def("c", ValueKind::U32, 1),
            value_def("d", ValueKind::U64, 1),
            value_def("e", ValueKind::I8, 1),
            value_def("f", ValueKind::I16, 1),
            value_def("g", ValueKind::I32, 1),
            value_def("h", ValueKind::F32, 1),
            value_def("i", ValueKind::Bool, 1),
            value_def("j", ValueKind::Bool, 3),
        ])
        .unwrap(),
    }];
    assert_eq!(
        r.read_values(&defs),
        Ok(vec![
            Ok(PacketValue::U8(0xAB)),
            Ok(PacketValue::U16(0x1234)),
            Ok(PacketValue::U16(0x5678)),
            Ok(PacketValue::U32(0x9ABC_DEF0)),
            Ok(PacketValue::U64(7)),
            Ok(PacketValue::I8(-5)),
            Ok(PacketValue::I16(-300)),
            Ok(PacketValue::I32(-70000)),
            Ok(PacketValue::F32(1.5f32.to_bits())),
            Ok(PacketValue::Bool(false)),
            Ok(PacketValue::Bool(true)),
            Ok(PacketValue::Bool(true)),
            Ok(PacketValue::Bool(false)),
        ])
    );
}

#[test]
fn timestamp_set_after_values_reads_back() {
    let mut buf = [0u8; 16];
    let mut w = PacketWriter::new(&mut buf, PacketHeader::new(9, 1)).unwrap();
    w.write_u16(0xCAFE).unwrap();
    w.write_bool(true).unwrap();
    w.set_timestamp(0x0203);
    let used = 16 - w.space();
    assert_eq!(&buf[..used], &[9u8, 0x03, 0x02, 0xFE, 0xCA, 0b1]);
    let (r, h) = PacketValueReader::new(&buf[..used]).unwrap();
    assert_eq!(h, PacketHeader::new(9, 0x0203));
    let defs = [PacketDef {
        id: 9,
        name: FieldName::from_str_truncating("ts"),
        log_to_terminal: false,
        values: ValueDefs::from_slice(&[value_def("a", ValueKind::U16, 1), value_def("b", ValueKind::Bool, 1)]).unwrap(),
    }];
    assert_eq!(
        r.read_values(&defs),
        Ok(vec![Ok(PacketValue::U16(0xCAFE)), Ok(PacketValue::Bool(true))])
    );
}

#[test]
fn block_writer_new_writes_header() {
    let mut buf = [0u8; BLOCK_SIZE];
    let h = header(BlockType::Data);
    let w = BlockWriter::new(&mut buf, h.clone());
    assert_eq!(w.space(), BLOCK_SIZE - 24);
    drop(w);
    assert_eq!(buf[0], 1);
    assert_eq!(buf[1], 1);
    assert_eq!(buf[2..4], [0, 0]);
    assert_eq!(buf[4..8], 42u32.to_le_bytes());
    assert_eq!(buf[8..16], 0x0102_0304_0506_0708u64.to_le_bytes());
    assert_eq!(buf[16..20], [0, 0, 0, 0]);
}

#[test]
fn block_writes_then_finish_compose() {
    let mut buf = [0xAAu8; BLOCK_SIZE];
    let h = header(BlockType::Data);
    let mut w = BlockWriter::new(&mut buf, h.clone());
    w.write(&[1, 2, 3]).unwrap();
    w.write(&[]).unwrap();
    w.write(&[4, 5]).unwrap();
    let mut crc = SoftwareCrc32::new();
    let block = w.finish(&mut crc);
    let mut expected = [0u8; 20];
    BlockHeader { size: 5, ..h }.serialize(&mut expected, &mut SoftwareCrc32::new()).unwrap();
    assert_eq!(block[..20], expected);
    assert_eq!(block[20..25], [1, 2, 3, 4, 5]);
    assert_eq!(block[25..29], crc.crc32(&[1, 2, 3, 4, 5]).to_le_bytes());
    assert!(crc.validate_crc32(&block[20..29]));
    assert!(block[29..].iter().all(|b| *b == 0xAA));
}

#[test]
fn packed_bools_are_shifted_sums() {
    for k in 1..=8usize {
        let bits = [true, false, true, true, false, false, true, true];
        let mut buf = [0xFFu8; 6];
        let mut w = PacketWriter::new(&mut buf, PacketHeader::new(1, 2)).unwrap();
        let s = w.space();
        for b in &bits[..k] {
            w.write_bool(*b).unwrap();
        }
        assert_eq!(w.space(), s - 1);
        assert_eq!(w.has_sub_byte_values(), k < 8);
        drop(w);
        let expected: u8 = (0..k).map(|i| (bits[i] as u8) << (k - 1 - i)).sum();
        assert_eq!(buf[3], expected);
        assert_eq!(buf[4..], [0xFF, 0xFF]);
    }
}
