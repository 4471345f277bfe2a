//! A compact, schema-driven binary codec.
//!
//! Values of a small generic data model (scalars, strings, byte blobs,
//! optionals, sequences, tuples, records, tagged unions, maps) are written to
//! a dense byte stream and read back.  The stream carries no field names and
//! no type tags: both sides must agree on the expected shape in advance.  Only
//! variable-length counts, option/union discriminants and raw payload bytes
//! appear on the wire.

pub mod de;
pub mod error;
pub mod fixed;
pub mod laws;
pub mod ser;
pub mod value;
pub mod varint;
pub mod wire;
