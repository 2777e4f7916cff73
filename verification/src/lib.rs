//! A minimal network front-end for a length-delimited event framing protocol.
//!
//! Each event on the wire is a newline-terminated UTF-8 topic line, a 4-byte
//! big-endian length prefix, and a binary payload of exactly that length.
//! The [`codec`] module holds the per-connection framing state machine that
//! turns a raw byte stream into a sequence of [`server::Event`] values, and
//! proves it against a byte-level model of the wire protocol.  The listening
//! socket itself, and the task spawned per accepted connection, are plain
//! I/O and live outside this crate; they feed raw bytes to the codec.

pub mod codec;
pub mod server;
