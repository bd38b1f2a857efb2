# amqprs

AMQP 0-9-1 value types (short and long strings, decimals, byte arrays,
field values, field arrays and field tables) and the SASL credentials that a
client answers the broker's challenge with, verified with Verus.

- `src/`: the library. Each type states its model as a view (`Seq<char>`,
  `Seq<u8>`, `Map<Seq<char>, FieldValue>`), each operation its contract over
  it, and the `law_*` proof functions state what holds across operations.
  `src/buffer.rs` holds the trusted declarations for `bytes::BytesMut`.
- `app/`: the same value types with `serde` derives, conversions to and from
  the library's types, and their `Display` (floats are formatted there).
- `tests/`: tests of the library on concrete values.
