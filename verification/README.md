# mpack

A MessagePack codec whose behaviour is stated in Verus contracts and proved.

## Layout

| Path | Contents |
| --- | --- |
| `src/common.rs` | Errors, types, tags, numbers and timestamps shared by all parts |
| `src/endian.rs` | Big-endian integers as byte sequences, with their encoders and decoders |
| `src/wire.rs` | The wire format: header sizes, the tag each header spells, the headers each value is written as |
| `src/reader.rs` | A reader over caller-owned bytes, with sticky errors |
| `src/writer.rs` | A fixed-buffer writer, a growable writer, a compound tracker and a builder for compounds of unknown size |
| `src/expect.rs` | Schema-driven reading: each call expects one kind of value, in range |
| `src/node.rs` | Parsing one value into a tree of nodes, and typed node accessors with map lookups |
| `src/print.rs` | Printing a message, or a node of a parsed tree, as indented pseudo-JSON |
| `src/digest.rs` | Fixed-size digests of reading a message element by element, of walking its parsed tree and of an opcode-driven run of schema reads; and reading a message to write it again |
| `src/roundtrip.rs` | The laws that a reader reads back what a writer wrote |
| `app/lib.rs` | Floating-point conversions (also for the float opcodes of the schema-read digest) and the delivery of printed text, which the verifier does not take |
| `tests/` | Scenario tests |

Floats are carried as their IEEE-754 bit patterns throughout the library, so
decoding never alters a NaN payload; `app/` converts them to `f32` / `f64`.
