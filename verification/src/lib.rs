//! A minimal binary serialization layer.
//!
//! Values encode themselves to and decode themselves from a byte stream in a
//! fixed, self-describing little-endian format: fixed-width unsigned integers
//! are written as raw little-endian bytes, and variable-size values (text,
//! sequences, mappings) are written as a 64-bit length prefix followed by
//! their contents. Container types built from encodable elements are
//! themselves encodable, with no bespoke code per combination.
//!
//! The two codec traits are [`Writable`] (encode into a byte sink) and
//! [`Readable`] (decode from a [`ByteSource`]); [`WriteExt`] and [`ReadExt`]
//! are convenience facades over them. Every implementation carries a contract
//! that pins the produced or consumed bytes down exactly, against the
//! specification functions `wire` and `dec`.

pub mod bytes;
pub mod error;
pub mod laws;
pub mod map;
pub mod read;
pub mod readable;
pub mod source;
pub mod writable;
pub mod write;

pub use error::WireError;
pub use map::WireMap;
pub use read::ReadExt;
pub use readable::Readable;
pub use source::ByteSource;
pub use writable::Writable;
pub use write::WriteExt;
