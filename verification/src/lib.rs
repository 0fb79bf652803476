//! Verified core of a live decoder for a game network protocol.
//!
//! The crate turns raw TCP payload bytes into structured records in two
//! verified stages: a framer that extracts `(message_id, length)` headers and
//! reassembles message bodies that span several segments, and a schema-driven
//! deserializer that decodes each body against an immutable type catalog
//! (inheritance, bit-packed booleans, variable-length integers, nested types,
//! arrays with dynamic length prefixes, and polymorphic type-id dispatch).
//!
//! Packet capture, schema loading and UI delivery are left to the embedding
//! application; the library works on plain byte sequences and plain values.

pub mod bytespec;
pub mod capture;
pub mod cursor;
pub mod decoder;
pub mod deserialize;
pub mod encode;
pub mod laws;
pub mod schema;
pub mod value;

pub use capture::PacketCapture;
pub use cursor::ByteCursor;
pub use cursor::CursorError;
pub use decoder::DofusPacket;
pub use decoder::PacketDecoder;
pub use decoder::Source;
pub use deserialize::DecodeError;
pub use schema::FieldSpec;
pub use schema::LengthSpec;
pub use schema::PrimKind;
pub use schema::SchemaCatalog;
pub use schema::TypeSpec;
pub use value::Fields;
pub use value::Value;
