//! Per-destination replay buffer.
//!
//! Each destination owns an append-only sequence of validated announces and
//! a replay cursor.  Replay is gated: while the bucket holds fewer than
//! [`REPLAY_THRESHOLD`] announces, nothing comes out.  Once the threshold is
//! reached, `next` is a round-robin generator over the whole accumulated
//! sequence: it yields the announce under the cursor, advances, and restarts
//! at the front when the cursor has run off the end.

use crate::announce::Announce;
use vstd::prelude::*;

verus! {

/// Number of announces a destination must accumulate before replay starts;
/// one routing-table eviction window of the attacked peers.
pub const REPLAY_THRESHOLD: usize = 64;

/// One `next` call on a bucket of length `len` with the cursor at `index`:
/// the cursor afterwards, and the position replayed, if any.
pub open spec fn ring_step(len: nat, index: nat) -> (nat, Option<nat>) {
    if len < REPLAY_THRESHOLD {
        (index, None)
    } else if index < len {
        ((index + 1) as nat, Some(index))
    } else {
        (1nat, Some(0nat))
    }
}

/// Cursor position after `k` successive `next` calls on a bucket of length
/// `len`, starting from `index`.
pub open spec fn ring_cursor_after(len: nat, index: nat, k: nat) -> nat
    decreases k,
{
    if k == 0 {
        index
    } else {
        ring_step(len, ring_cursor_after(len, index, (k - 1) as nat)).0
    }
}

/// Position replayed by call number `k`, counting calls from 0.
pub open spec fn ring_replay_at(len: nat, index: nat, k: nat) -> Option<nat> {
    ring_step(len, ring_cursor_after(len, index, k)).1
}

/// The replay bucket of one destination.
pub struct Ring {
    /// Announces in arrival order; appending never evicts.
    pub announces: Vec<Announce>,
    /// Replay cursor: the position handed out next.
    pub index: usize,
}

impl Ring {
    /// An empty bucket with the cursor at the front.
    pub fn new() -> (ring: Ring)
        ensures
            ring.announces@.len() == 0,
            ring.index == 0,
    {
        Ring { announces: Vec::new(), index: 0 }
    }

    /// How many announces the bucket holds.
    pub fn len(&self) -> (n: usize)
        ensures
            n == self.announces@.len(),
    {
        self.announces.len()
    }

    /// Appends one more announce; never evicts, never moves the cursor.
    pub fn append(&mut self, announce: Announce)
        ensures
            final(self).announces@ == old(self).announces@.push(announce),
            final(self).index == old(self).index,
    {
        self.announces.push(announce);
    }

    /// The replay gate and cursor: nothing below the threshold; at or above
    /// it, a copy of the announce under the cursor, post-incrementing, with
    /// the cursor restarting at the front once it has run off the end.
    pub fn next(&mut self) -> (replay: Option<Announce>)
        ensures
            final(self).announces@ == old(self).announces@,
            final(self).index == ring_step(
                old(self).announces@.len(),
                old(self).index as nat,
            ).0,
            match ring_step(old(self).announces@.len(), old(self).index as nat).1 {
                Some(k) => replay matches Some(a) && a@ == old(self).announces@[k as int]@,
                None => replay is None,
            },
    {
        if self.announces.len() < REPLAY_THRESHOLD {
            return None;
        }
        if self.index < self.announces.len() {
            let replay = self.announces[self.index].clone();
            self.index = self.index + 1;
            Some(replay)
        } else {
            self.index = 1;
            Some(self.announces[0].clone())
        }
    }
}

/// Cursor progress: starting a pass at the front of an active bucket, `k`
/// calls move the cursor to `k`.
proof fn lemma_cursor_progress(len: nat, k: nat)
    requires
        len >= REPLAY_THRESHOLD,
        k <= len,
    ensures
        ring_cursor_after(len, 0, k) == k,
    decreases k,
{
    if k > 0 {
        lemma_cursor_progress(len, (k - 1) as nat);
    }
}

/// Round robin with wraparound: on an active bucket with the cursor at the
/// front, a full pass of `next` calls replays every position exactly once in
/// insertion order, and the call right after the pass replays the front
/// position again.
pub proof fn lemma_round_robin(len: nat, k: nat)
    requires
        len >= REPLAY_THRESHOLD,
        k < len,
    ensures
        ring_replay_at(len, 0, k) == Some(k),
        ring_replay_at(len, 0, len) == Some(0nat),
{
    lemma_cursor_progress(len, k);
    lemma_cursor_progress(len, len);
}

} // verus!
