//! Image stores: filename-to-file containers filled by the restore
//! deserializer and queried by consumers.
//!
//! The in-memory store lives in [`mem`]; it buffers the whole image so that
//! files can be served on demand. Writing files straight to disk needs no
//! container of its own: the deserializer directs those writes as they
//! arrive.

pub mod mem;
