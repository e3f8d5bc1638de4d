//! Byte-order-aware encoding and decoding of fixed-width and variable-width
//! integers, together with helpers that read such values from a byte source
//! and write them to a byte sink.
//!
//! Every conversion is specified against a small arithmetic model: a byte
//! sequence denotes a natural number (`be_value`, `le_value`), and a natural
//! number has a byte sequence of any chosen length (`be_bytes`, `le_bytes`).
//!
//! - `model`: the arithmetic meaning of byte sequences, and its lemmas.
//! - `order`: the `ByteOrder` trait with `BigEndian` and `LittleEndian`.
//! - `stream`: sources and sinks, `read_full`, and the reading and writing
//!   of numbers on them.
//! - `memory`: a source and two sinks that live in memory.
//! - `laws`: what holds of the conversions taken together.

pub mod laws;
pub mod memory;
pub mod model;
pub mod order;
pub mod stream;

pub use memory::{Bounded, Cursor, Fault, Full};
pub use order::{BigEndian, ByteOrder, LittleEndian};
pub use stream::{advance, read_full, Fill, ReadBytesExt, ReadError, Sink, Source, WriteBytesExt};
