//! Replay toolkit for the announce propagation of a delay-tolerant mesh
//! network.
//!
//! Nodes of the network periodically broadcast signed announce packets, and
//! routing tables keep at most a bounded number of announces per destination
//! before evicting the oldest.  This library holds the verified core of a
//! tool that collects legitimately signed announces and, once enough have
//! been gathered for a destination, replays stale ones on demand:
//!
//! - [`hdlc`]: the byte-stuffing frame codec used on each link;
//! - [`announce`]: the announce record and its signature validation;
//! - [`ring`]: the per-destination gated round-robin replay buffer;
//! - [`store`]: the store mapping destinations to replay buffers and
//!   deduplicating collected announces;
//! - [`engine`]: the per-packet decisions of a worker connected to one node.
//!
//! Sockets, threads and the snapshot file live outside the library; they
//! hand byte chunks and parsed packet events in, and take frames and
//! announces to send back out.

pub mod announce;
pub mod engine;
pub mod hdlc;
pub mod ring;
pub mod store;
