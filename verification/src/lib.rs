//! A minimal message broker built on a segmented, append-only log.
//!
//! Producers append newline-terminated records to a partition; consumers pull
//! records from any byte offset and keep tailing. The partition keeps its
//! records in segments, each identified by the offset of its first byte.
//!
//! The library holds the log and decides; it reads no file and no socket. Its
//! host hands it what it read: the files of a partition's directory at
//! startup, each record a producer sent, each handshake of a consumer; and it
//! does what the sessions hand out: it writes records to segment files and to
//! consumers' sockets.
//!
//! - [`naming`]: the names of segment files, and the offsets they stand for.
//! - [`records`]: where a record ends.
//! - [`wire`]: the bytes of the protocol.
//! - [`segment`], [`segment_order`]: one segment and its two roles.
//! - [`scan`], [`recovery`]: from a directory listing to ordered segments.
//! - [`partition`]: the segments of a log, its write offset and its rollover.
//! - [`producer`], [`consumer`]: the broker's side of a connection.
//! - [`client`]: the consumer's and the producer's side.
//! - [`laws`]: what holds of all of them.

use vstd::prelude::*;

pub mod client;
pub mod consumer;
pub mod laws;
pub mod naming;
pub mod partition;
pub mod producer;
pub mod records;
pub mod recovery;
pub mod scan;
pub mod segment;
pub mod segment_order;
pub mod wire;

pub use segment::Client;

verus! {

/// A global byte position within the logical concatenation of a partition's
/// records.
pub type Offset = u64;

} // verus!
