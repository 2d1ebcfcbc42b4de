//! An in-memory key-value store speaking a Redis-style wire protocol.
//!
//! The crate is organised around a small set of cooperating pieces: the
//! wire-object codec, the command model derived from decoded objects, the
//! in-memory store, the write-ahead-log record format, and the per-connection
//! drain loop that ties them together.  Everything here is pure computation
//! over bytes and strings; sockets, files and threads live with the callers.

pub mod client;
pub mod command;
pub mod command_parser;
pub mod connection;
pub mod db;
pub mod object;
pub mod objects;
pub mod server;
pub mod wal;

use vstd::prelude::*;

verus! {

/// Ceiling on the size of a single wire record, in bytes, in both directions.
pub const MESSAGE_MAX_SIZE: usize = 512;

} // verus!
