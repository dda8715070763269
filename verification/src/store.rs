//! The exploit store.
//!
//! One mapping for each mode of the tool.  Collecting, it maps the dedup key
//! of an announce — identity hash and random hash — to the announce,
//! first writer wins, so re-broadcasts of the identical announce are kept
//! once.  Attacking, it maps a 16-byte destination hash to that
//! destination's replay bucket, populated once from a persisted snapshot.
//! Both mappings are kept as vectors of entries with pairwise distinct keys.

use crate::announce::{Announce, AnnounceView, opt_view};
use crate::ring::{REPLAY_THRESHOLD, Ring, ring_step};
use vstd::prelude::*;

verus! {

/// One destination's bucket.
pub struct RingSlot {
    /// Destination hash the bucket belongs to.
    pub dest: [u8; 16],
    /// The bucket itself.
    pub ring: Ring,
}

/// Mathematical image of a bucket and its destination.
#[verifier::ext_equal]
pub struct SlotView {
    pub dest: Seq<u8>,
    pub announces: Seq<AnnounceView>,
    pub index: nat,
}

impl View for RingSlot {
    type V = SlotView;

    open spec fn view(&self) -> SlotView {
        SlotView {
            dest: self.dest@,
            announces: self.ring.announces@.map_values(|a: Announce| a@),
            index: self.ring.index as nat,
        }
    }
}

/// The buckets as their mathematical images.
pub open spec fn rings_view(s: Seq<RingSlot>) -> Seq<SlotView> {
    s.map_values(|slot: RingSlot| slot@)
}

/// Dedup key of an announce: identity hash and random hash.
pub open spec fn dedup_key(a: AnnounceView) -> (Seq<u8>, Seq<u8>) {
    (a.identity.hash, a.random_hash)
}

/// Whether some recorded entry carries the same dedup key as `a`.
pub open spec fn has_dedup_key(s: Seq<Announce>, a: AnnounceView) -> bool {
    exists|i: int| 0 <= i < s.len() && dedup_key(s[i]@) == dedup_key(a)
}

/// The recorded entries after one recording: unchanged when the key is
/// already present, extended by the announce otherwise.
pub open spec fn record_spec(s: Seq<Announce>, a: Announce) -> Seq<Announce> {
    if has_dedup_key(s, a@) {
        s
    } else {
        s.push(a)
    }
}

/// A record set as its mathematical image.
pub open spec fn announces_view(s: Seq<Announce>) -> Seq<AnnounceView> {
    s.map_values(|a: Announce| a@)
}

/// A destination list as its mathematical image.
pub open spec fn dests_view(s: Seq<[u8; 16]>) -> Seq<Seq<u8>> {
    s.map_values(|d: [u8; 16]| d@)
}

/// The buckets after sorting one announce in: appended to the bucket of its
/// identity hash, or opening a fresh bucket at the back with the cursor at
/// the front.
pub open spec fn sort_in(s: Seq<SlotView>, a: AnnounceView) -> Seq<SlotView> {
    let i = slot_index_of(s, a.identity.hash);
    if i >= 0 {
        s.update(
            i,
            SlotView { dest: s[i].dest, announces: s[i].announces.push(a), index: s[i].index },
        )
    } else {
        s.push(SlotView { dest: a.identity.hash, announces: seq![a], index: 0 })
    }
}

/// The buckets after sorting a whole record set in, front to back.
pub open spec fn restore_spec(s: Seq<SlotView>, records: Seq<AnnounceView>) -> Seq<SlotView>
    decreases records.len(),
{
    if records.len() == 0 {
        s
    } else {
        restore_spec(sort_in(s, records[0]), records.skip(1))
    }
}

/// Destinations whose buckets have reached the replay threshold, in bucket
/// order.
pub open spec fn exploitable_dests(s: Seq<SlotView>) -> Seq<Seq<u8>>
    decreases s.len(),
{
    if s.len() == 0 {
        Seq::empty()
    } else {
        let front = exploitable_dests(s.drop_last());
        if s.last().announces.len() >= REPLAY_THRESHOLD {
            front.push(s.last().dest)
        } else {
            front
        }
    }
}

/// Position of the bucket owning destination `d`, or -1 when none does.
pub open spec fn slot_index_of(s: Seq<SlotView>, d: Seq<u8>) -> int
    decreases s.len(),
{
    if s.len() == 0 {
        -1
    } else if s[0].dest == d {
        0
    } else {
        let rest = slot_index_of(s.skip(1), d);
        if rest == -1 {
            -1
        } else {
            1 + rest
        }
    }
}

/// How one lookup of destination `d` relates the buckets before and after,
/// and what it hands back: with no bucket for `d`, nothing changes and
/// nothing is replayed; otherwise the bucket's cursor moves by one `next`
/// call, which also decides whether an announce is replayed.
pub open spec fn lookup_outcome(
    pre: Seq<SlotView>,
    d: Seq<u8>,
    post: Seq<SlotView>,
    replay: Option<AnnounceView>,
) -> bool {
    let i = slot_index_of(pre, d);
    if i == -1 {
        post == pre && replay is None
    } else {
        let slot = pre[i];
        let stepped = ring_step(slot.announces.len(), slot.index);
        &&& post == pre.update(
            i,
            SlotView { dest: slot.dest, announces: slot.announces, index: stepped.0 },
        )
        &&& match stepped.1 {
            Some(k) => replay == Some(slot.announces[k as int]),
            None => replay is None,
        }
    }
}

/// Entry keys are pairwise distinct.
pub open spec fn entries_wf(s: Seq<Announce>) -> bool {
    forall|i: int, j: int|
        0 <= i < j < s.len() ==> dedup_key(s[i]@) != dedup_key(s[j]@)
}

/// Bucket destinations are pairwise distinct.
pub open spec fn rings_wf(s: Seq<RingSlot>) -> bool {
    forall|i: int, j: int| 0 <= i < j < s.len() ==> s[i].dest@ != s[j].dest@
}

/// Whether two byte slices hold the same bytes.
pub(crate) fn bytes_eq(a: &[u8], b: &[u8]) -> (eq: bool)
    ensures
        eq == (a@ == b@),
{
    if a.len() != b.len() {
        return false;
    }
    let mut i: usize = 0;
    while i < a.len()
        invariant
            i <= a@.len(),
            a@.len() == b@.len(),
            forall|j: int| 0 <= j < i ==> a@[j] == b@[j],
        decreases a@.len() - i,
    {
        if a[i] != b[i] {
            return false;
        }
        i = i + 1;
    }
    proof {
        assert(a@ =~= b@);
    }
    true
}

/// The store of the tool: collected announces keyed by dedup key, and
/// replay buckets keyed by destination hash.
pub struct ExploitStore {
    /// Collection mode: recorded announces, unique by dedup key.
    pub entries: Vec<Announce>,
    /// Attack mode: one replay bucket per destination.
    pub rings: Vec<RingSlot>,
}

impl ExploitStore {
    /// Both mappings keep their keys pairwise distinct.
    pub open spec fn wf(&self) -> bool {
        entries_wf(self.entries@) && rings_wf(self.rings@)
    }

    /// An empty store.
    pub fn new() -> (store: ExploitStore)
        ensures
            store.entries@.len() == 0,
            store.rings@.len() == 0,
            store.wf(),
    {
        ExploitStore { entries: Vec::new(), rings: Vec::new() }
    }

    /// Collection-mode recording, first writer wins: an announce whose dedup
    /// key is already present leaves the store unchanged; a fresh key is
    /// appended.  Returns whether the announce was fresh.
    pub fn record(&mut self, announce: Announce) -> (fresh: bool)
        requires
            old(self).wf(),
        ensures
            final(self).wf(),
            final(self).rings@ == old(self).rings@,
            final(self).entries@ == record_spec(old(self).entries@, announce),
            fresh == !has_dedup_key(old(self).entries@, announce@),
    {
        let mut i: usize = 0;
        while i < self.entries.len()
            invariant
                i <= self.entries@.len(),
                *self == *old(self),
                old(self).wf(),
                forall|j: int|
                    0 <= j < i ==> dedup_key(self.entries@[j]@) != dedup_key(announce@),
            decreases self.entries@.len() - i,
        {
            let same_identity = bytes_eq(
                self.entries[i].identity.hash.as_slice(),
                announce.identity.hash.as_slice(),
            );
            if same_identity && bytes_eq(
                self.entries[i].random_hash.as_slice(),
                announce.random_hash.as_slice(),
            ) {
                proof {
                    assert(dedup_key(self.entries@[i as int]@) == dedup_key(announce@));
                }
                return false;
            }
            i = i + 1;
        }
        self.entries.push(announce);
        proof {
            assert(entries_wf(final(self).entries@));
        }
        true
    }

    /// How many announces the collection holds.
    pub fn collected(&self) -> (n: usize)
        ensures
            n == self.entries@.len(),
    {
        self.entries.len()
    }

    /// Collection-mode snapshot: a copy of every recorded announce, in
    /// order, for the persistence loop to write out.
    pub fn snapshot(&self) -> (records: Vec<Announce>)
        ensures
            announces_view(records@) == announces_view(self.entries@),
    {
        let mut records: Vec<Announce> = Vec::new();
        let mut i: usize = 0;
        while i < self.entries.len()
            invariant
                i <= self.entries@.len(),
                records@.len() == i,
                forall|j: int| 0 <= j < i ==> records@[j]@ == self.entries@[j]@,
            decreases self.entries@.len() - i,
        {
            records.push(self.entries[i].clone());
            i = i + 1;
        }
        proof {
            assert(announces_view(records@) =~= announces_view(self.entries@));
        }
        records
    }

    /// Sorts one announce into the bucket of its identity hash, opening the
    /// bucket when the destination is new.
    fn sort_one(&mut self, announce: Announce)
        requires
            old(self).wf(),
        ensures
            final(self).wf(),
            final(self).entries@ == old(self).entries@,
            rings_view(final(self).rings@) == sort_in(rings_view(old(self).rings@), announce@),
    {
        let ghost pre = rings_view(self.rings@);
        let ghost av = announce@;
        let key = announce.identity.hash;
        let mut i: usize = 0;
        while i < self.rings.len()
            invariant
                i <= self.rings@.len(),
                *self == *old(self),
                old(self).wf(),
                av == announce@,
                key@ == av.identity.hash,
                pre == rings_view(self.rings@),
                forall|j: int| 0 <= j < i ==> self.rings@[j].dest@ != key@,
            decreases self.rings@.len() - i,
        {
            if bytes_eq(self.rings[i].dest.as_slice(), key.as_slice()) {
                proof {
                    lemma_slot_index_of_first(pre, av.identity.hash, i as int);
                }
                let slot = slot_mut(&mut self.rings, i);
                slot.ring.append(announce);
                proof {
                    let rv = rings_view(self.rings@);
                    assert(rv.len() == pre.len());
                    assert(rv[i as int] == self.rings@[i as int]@);
                    assert(pre[i as int] == old(self).rings@[i as int]@);
                    assert(rv[i as int].dest =~= pre[i as int].dest);
                    assert(rv[i as int].announces =~= pre[i as int].announces.push(av));
                    assert(rv[i as int].index == pre[i as int].index);
                    assert(rings_view(self.rings@) =~~= sort_in(pre, av));
                    assert(rings_wf(self.rings@)) by {
                        assert forall|x: int|
                            0 <= x < self.rings@.len() implies self.rings@[x].dest@ == old(
                            self,
                        ).rings@[x].dest@ by {}
                    }
                }
                return ;
            }
            i = i + 1;
        }
        proof {
            lemma_slot_index_of_none(pre, av.identity.hash);
        }
        let mut ring = Ring::new();
        ring.append(announce);
        self.rings.push(RingSlot { dest: key, ring });
        proof {
            assert(rings_view(self.rings@) =~~= sort_in(pre, av));
        }
    }

    /// Attack-mode population: sorts a persisted record set into replay
    /// buckets, one per identity hash, in record order.  No announce is
    /// learned live in attack mode; this runs once at startup.
    pub fn restore(&mut self, records: Vec<Announce>)
        requires
            old(self).wf(),
        ensures
            final(self).wf(),
            final(self).entries@ == old(self).entries@,
            rings_view(final(self).rings@) == restore_spec(
                rings_view(old(self).rings@),
                announces_view(records@),
            ),
    {
        let ghost pre = rings_view(self.rings@);
        let ghost recs = announces_view(records@);
        let mut k: usize = 0;
        while k < records.len()
            invariant
                k <= records@.len(),
                recs == announces_view(records@),
                self.wf(),
                self.entries@ == old(self).entries@,
                rings_view(self.rings@) == restore_spec(pre, recs.take(k as int)),
            decreases records@.len() - k,
        {
            let announce = records[k].clone();
            self.sort_one(announce);
            proof {
                assert(recs.take((k + 1) as int) =~= recs.take(k as int).push(recs[k as int]));
                lemma_restore_spec_snoc(pre, recs.take(k as int), recs[k as int]);
            }
            k = k + 1;
        }
        proof {
            assert(recs.take(recs.len() as int) =~= recs);
        }
    }

    /// Attack-mode report: the destinations whose buckets have reached the
    /// replay threshold, in bucket order.
    pub fn exploitable_targets(&self) -> (dests: Vec<[u8; 16]>)
        ensures
            dests_view(dests@) == exploitable_dests(rings_view(self.rings@)),
    {
        let mut dests: Vec<[u8; 16]> = Vec::new();
        let mut i: usize = 0;
        while i < self.rings.len()
            invariant
                i <= self.rings@.len(),
                dests_view(dests@) == exploitable_dests(rings_view(self.rings@).take(i as int)),
            decreases self.rings@.len() - i,
        {
            if self.rings[i].ring.len() >= REPLAY_THRESHOLD {
                dests.push(self.rings[i].dest);
            }
            proof {
                let rv = rings_view(self.rings@);
                assert(rv.take((i + 1) as int).drop_last() =~= rv.take(i as int));
                assert(rv.take((i + 1) as int).last() == rv[i as int]);
                assert(dests_view(dests@) =~= exploitable_dests(rv.take((i + 1) as int)));
            }
            i = i + 1;
        }
        proof {
            assert(rings_view(self.rings@).take(self.rings@.len() as int) =~= rings_view(
                self.rings@,
            ));
        }
        dests
    }

    /// Attack-mode lookup: finds the bucket of `dest`, if any, and advances
    /// it by one `next` call, handing back whatever the bucket replays.
    pub fn lookup_and_advance(&mut self, dest: &[u8; 16]) -> (replay: Option<Announce>)
        requires
            old(self).wf(),
        ensures
            final(self).wf(),
            final(self).entries@ == old(self).entries@,
            lookup_outcome(
                rings_view(old(self).rings@),
                dest@,
                rings_view(final(self).rings@),
                opt_view(replay),
            ),
    {
        let ghost pre = rings_view(self.rings@);
        let mut i: usize = 0;
        while i < self.rings.len()
            invariant
                i <= self.rings@.len(),
                *self == *old(self),
                old(self).wf(),
                pre == rings_view(self.rings@),
                forall|j: int| 0 <= j < i ==> self.rings@[j].dest@ != dest@,
            decreases self.rings@.len() - i,
        {
            if bytes_eq(self.rings[i].dest.as_slice(), dest.as_slice()) {
                proof {
                    lemma_slot_index_of_first(pre, dest@, i as int);
                }
                let slot = slot_mut(&mut self.rings, i);
                let replay = slot.ring.next();
                proof {
                    assert(rings_view(self.rings@) =~= pre.update(
                        i as int,
                        SlotView {
                            dest: pre[i as int].dest,
                            announces: pre[i as int].announces,
                            index: ring_step(
                                pre[i as int].announces.len(),
                                pre[i as int].index,
                            ).0,
                        },
                    ));
                    assert(rings_wf(self.rings@)) by {
                        assert forall|x: int|
                            0 <= x < self.rings@.len() implies self.rings@[x].dest@ == old(
                            self,
                        ).rings@[x].dest@ by {}
                    }
                }
                return replay;
            }
            i = i + 1;
        }
        proof {
            lemma_slot_index_of_none(pre, dest@);
        }
        None
    }
}

/// A mutable borrow of one bucket slot.
fn slot_mut(rings: &mut Vec<RingSlot>, i: usize) -> (slot: &mut RingSlot)
    requires
        i < old(rings).len(),
    ensures
        *slot == old(rings)@[i as int],
        final(rings)@ == old(rings)@.update(i as int, *final(slot)),
{
    &mut rings[i]
}

/// A bucket found first by a forward scan stands where `slot_index_of`
/// points.
proof fn lemma_slot_index_of_first(s: Seq<SlotView>, d: Seq<u8>, i: int)
    requires
        0 <= i < s.len(),
        s[i].dest == d,
        forall|j: int| 0 <= j < i ==> s[j].dest != d,
    ensures
        slot_index_of(s, d) == i,
    decreases i,
{
    if i > 0 {
        assert forall|j: int| 0 <= j < i - 1 implies s.skip(1)[j].dest != d by {
            assert(s.skip(1)[j] == s[j + 1]);
        }
        lemma_slot_index_of_first(s.skip(1), d, i - 1);
    }
}

/// Sorting in one more record is one more `sort_in` at the back.
proof fn lemma_restore_spec_snoc(s: Seq<SlotView>, rs: Seq<AnnounceView>, a: AnnounceView)
    ensures
        restore_spec(s, rs.push(a)) == sort_in(restore_spec(s, rs), a),
    decreases rs.len(),
{
    if rs.len() == 0 {
        assert(rs.push(a)[0] == a);
        assert(rs.push(a).skip(1) =~= Seq::<AnnounceView>::empty());
        assert(restore_spec(sort_in(s, a), Seq::<AnnounceView>::empty()) == sort_in(s, a));
    } else {
        assert(rs.push(a)[0] == rs[0]);
        assert(rs.push(a).skip(1) =~= rs.skip(1).push(a));
        lemma_restore_spec_snoc(sort_in(s, rs[0]), rs.skip(1), a);
    }
}

/// Dedup: two announces sharing one dedup key never both enter; recording
/// the second leaves the collection exactly as the first left it, its size
/// included.
pub proof fn lemma_record_dedup(s: Seq<Announce>, first: Announce, second: Announce)
    requires
        dedup_key(first@) == dedup_key(second@),
    ensures
        record_spec(record_spec(s, first), second) == record_spec(s, first),
{
    let s1 = record_spec(s, first);
    if has_dedup_key(s, first@) {
        let i = choose|i: int| 0 <= i < s.len() && dedup_key(s[i]@) == dedup_key(first@);
        assert(dedup_key(s1[i]@) == dedup_key(second@));
    } else {
        assert(s1[s.len() as int] == first);
        assert(dedup_key(s1[s.len() as int]@) == dedup_key(second@));
    }
    assert(has_dedup_key(s1, second@));
}

/// When no bucket owns `d`, `slot_index_of` points nowhere.
proof fn lemma_slot_index_of_none(s: Seq<SlotView>, d: Seq<u8>)
    requires
        forall|j: int| 0 <= j < s.len() ==> s[j].dest != d,
    ensures
        slot_index_of(s, d) == -1,
    decreases s.len(),
{
    if s.len() > 0 {
        assert forall|j: int| 0 <= j < s.len() - 1 implies s.skip(1)[j].dest != d by {
            assert(s.skip(1)[j] == s[j + 1]);
        }
        lemma_slot_index_of_none(s.skip(1), d);
    }
}

} // verus!
