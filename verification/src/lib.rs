//! Core of an image streaming engine for checkpoint/restore workflows.
//!
//! During capture, data files produced by external processes are multiplexed
//! into a small fixed set of output byte streams ("shards"), each chunk
//! preceded by a self-describing marker carrying a global sequence number.
//! During restore, the interleaved shard streams are reordered by sequence
//! number and reassembled into the original named files, either held in an
//! in-memory store and served on demand, or written to disk.
//!
//! This crate holds the verified engine: the chunked wire codec, the capture
//! serializer's decisions (shard selection, sequencing, filename elision),
//! the restore deserializer (reordering and reassembly), and the in-memory
//! image store. The kernel-level plumbing that the engine directs (pipes,
//! splices, readiness polling, socket traffic) lives outside it and hands the
//! engine plain values.

pub mod cli;
pub mod error;
pub mod util;
pub mod mmap_buf;
pub mod image;
pub mod image_store;
pub mod endpoint_connection;
pub mod capture;
pub mod extract;
pub mod handshake;
