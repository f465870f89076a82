//! Encoding and decoding of values in the REdis Serialization Protocol (RESP).
//!
//! The [`ser::Serializer`] appends frames for each shape of a value to a byte
//! buffer; the [`de::Deserializer`] reads them back, driven by the shape the
//! caller asks for. The wire grammar is stated as mathematical functions in [`grammar`],
//! and [`laws`] proves that its frames decode uniquely.

pub mod de;
pub mod error;
pub mod grammar;
pub mod laws;
pub mod ser;

pub use de::Deserializer;
pub use error::Error;
pub use ser::Serializer;
