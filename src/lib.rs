//! ataf: a chunked, independently compressed archive container.
//!
//! The wire format, the writer and the reader are verified against the
//! byte-level models in `varint`, `header` and `frame`.
pub mod archive;
pub mod codecs;
pub mod compression;
pub mod container;
pub mod error;
pub mod frame;
pub mod header;
pub mod varint;
pub mod wire;
