//! Per-packet decisions of a worker.
//!
//! A worker owns one connection to a remote node: it reads chunks, decodes
//! frames, has them parsed into packets, and reacts.  The socket, the
//! threads and the packet parser live outside the library; what they hand
//! back is a [`PacketEvent`], and the functions here decide — against the
//! shared store — what to do with it.  Workers hold the store only for
//! these in-memory decisions, never across a socket write.

use crate::announce::{Announce, announce_valid, opt_view};
use crate::store::{ExploitStore, lookup_outcome, record_spec, has_dedup_key, rings_view};
use vstd::prelude::*;

verus! {

/// Decoded frames shorter than this cannot hold a viable packet and are
/// discarded as noise before parsing.
pub const MIN_PACKET_LEN: usize = 20;

/// Whether a decoded frame is long enough to be handed to the parser.
pub fn viable_frame(len: usize) -> (viable: bool)
    ensures
        viable == (len >= MIN_PACKET_LEN),
{
    len >= MIN_PACKET_LEN
}

/// What one read from a connection turned into, after deframing and
/// parsing.  The parser is an outside collaborator; the engine depends only
/// on this three-variant shape plus its failure.
pub enum PacketEvent {
    /// A parsed announce arrived.
    AnnounceReceived(Announce),
    /// A parsed path request arrived, querying a destination hash.
    PathRequestReceived([u8; 16]),
    /// Some other packet kind arrived.
    OtherPacket,
    /// The bytes did not parse as a packet; reported, never fatal.
    Malformed,
}

/// Attack-mode reaction to one event: a validated announce or a path
/// request selects the replay bucket of the identity it speaks about — the
/// sender's claimed identity hash, or the queried destination — and pops
/// that bucket's next replay candidate, to be re-encoded and reflected onto
/// the same connection.  Everything else changes nothing.
pub fn attack_decision(store: &mut ExploitStore, event: PacketEvent) -> (replay: Option<
    Announce,
>)
    requires
        old(store).wf(),
    ensures
        final(store).wf(),
        final(store).entries@ == old(store).entries@,
        match event {
            PacketEvent::AnnounceReceived(a) => {
                if announce_valid(a@) {
                    lookup_outcome(
                        rings_view(old(store).rings@),
                        a@.identity.hash,
                        rings_view(final(store).rings@),
                        opt_view(replay),
                    )
                } else {
                    final(store).rings@ == old(store).rings@ && replay is None
                }
            },
            PacketEvent::PathRequestReceived(q) => lookup_outcome(
                rings_view(old(store).rings@),
                q@,
                rings_view(final(store).rings@),
                opt_view(replay),
            ),
            _ => final(store).rings@ == old(store).rings@ && replay is None,
        },
{
    match event {
        PacketEvent::AnnounceReceived(announce) => {
            if announce.validate() {
                let key = announce.identity.hash;
                store.lookup_and_advance(&key)
            } else {
                None
            }
        }
        PacketEvent::PathRequestReceived(query) => store.lookup_and_advance(&query),
        PacketEvent::OtherPacket => None,
        PacketEvent::Malformed => None,
    }
}

/// Collection-mode reaction to one event: a validated announce is recorded
/// under its dedup key, first writer wins; everything else changes nothing.
/// Returns whether a fresh announce entered the store.
pub fn collect_decision(store: &mut ExploitStore, event: PacketEvent) -> (recorded: bool)
    requires
        old(store).wf(),
    ensures
        final(store).wf(),
        final(store).rings@ == old(store).rings@,
        match event {
            PacketEvent::AnnounceReceived(a) => {
                if announce_valid(a@) {
                    final(store).entries@ == record_spec(old(store).entries@, a) && recorded
                        == !has_dedup_key(old(store).entries@, a@)
                } else {
                    final(store).entries@ == old(store).entries@ && !recorded
                }
            },
            _ => final(store).entries@ == old(store).entries@ && !recorded,
        },
{
    match event {
        PacketEvent::AnnounceReceived(announce) => {
            if announce.validate() {
                store.record(announce)
            } else {
                false
            }
        }
        PacketEvent::PathRequestReceived(_) => false,
        PacketEvent::OtherPacket => false,
        PacketEvent::Malformed => false,
    }
}

} // verus!
