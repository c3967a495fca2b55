//! A log-structured, append-only storage engine: fixed-width index records,
//! segments of raw payload bytes, and the partitions and topics above them.
//!
//! The engine holds the contents of every open file in memory and never
//! touches the filesystem itself. Where an operation depends on what the
//! disk holds, it takes that as an argument: the bytes of a segment's two
//! files, or the entries of a topic's directory. Whoever embeds the engine
//! reads those from disk before the call and writes to disk afterwards what
//! the call appended.

pub mod index;
pub mod partition;
pub mod path;
pub mod segment;
