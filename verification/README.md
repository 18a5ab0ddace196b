# pk_flight_log

The Pokey Flight Log format: a fault and power-loss tolerant log of flight
data, written in blocks to flash, verified with Verus.

- `src/` is the library. Every encoder and decoder states in its contract the
  exact bytes it writes or the exact value it reads back, over the spec
  functions of its module; the round trips (block headers, field names, value
  and packet definitions, metadata, packet values) are proved as lemmas.
  - `lib.rs`: versions, errors, the serialization traits, the integer
    decoders and `DeserializeContext`.
  - `wire.rs`: byte-level helpers and the lemmas on partial writes.
  - `crc32.rs`: the CRC32 interface and its software implementation, which
    calls the `crc` crate.
  - `block.rs`: block headers and the block writer, which writes the header
    when created and again, with the data's size and CRCs, when finished.
  - `metadata.rs`: field names, value and packet definitions, metadata; the
    fixed-capacity lists are `heapless::Vec`s behind small trusted wrappers.
  - `packet.rs`: the packet writer, with booleans packed into bytes, and the
    reader, whose decoding is specified as a plan of reads.
  - `round_trip.rs`: that a packet written value by value reads back as
    written, for any order of its value definitions (a definition with a
    count of zero where a read starts is refused as invalid data).
  - `value.rs`: packet values.
- `app/` holds what uses floating point or `core::fmt`: float values,
  `write_f32`/`read_f32` and the display of field names.
- `tests/` holds the tests.
