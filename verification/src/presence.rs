//! The presence tracker: a per-id state machine deciding which detections
//! stay on display.
//!
//! An id is ABSENT when the tracker holds no entry for it and ACTIVE when
//! it holds one; at most one entry exists per id. A detection of an
//! untracked id creates an entry stamped with the current time and resolves
//! its metadata in the description set — a failed resolution is a signaled
//! error, as it means the template catalog and the description set
//! disagree. A detection of a tracked id refreshes its stamp. Eviction runs
//! after the cycle's detections: every entry whose stamp is older than the
//! time-to-live is removed, so an entry refreshed this cycle always
//! survives.

use crate::items::DescriptionSet;
use vstd::prelude::*;

verus! {

/// How long an entry stays ACTIVE after its last detection, in
/// milliseconds.
pub const PRESENCE_TTL_MS: u64 = 2000;

/// One ACTIVE detection: the catalog id, the index of its metadata record
/// in the description set, and the time it was last detected.
#[derive(Clone, Copy, Debug, PartialEq, Eq, Structural)]
pub struct PresenceEntry {
    pub id: u32,
    pub desc_index: usize,
    pub last_seen: u64,
}

/// Whether a sequence of entries holds pairwise distinct ids.
pub open spec fn entry_unique_ids(s: Seq<PresenceEntry>) -> bool {
    forall|i: int, j: int| 0 <= i < j < s.len() ==> s[i].id != s[j].id
}

/// Whether an entry survives eviction at time `now`: it does exactly when
/// its age does not exceed the time-to-live.
pub open spec fn keep(e: PresenceEntry, now: u64, ttl: u64) -> bool {
    now <= e.last_seen + ttl
}

/// The entries of `s` that survive eviction at `now`, in order.
pub open spec fn surviving(s: Seq<PresenceEntry>, now: u64, ttl: u64) -> Seq<PresenceEntry>
    decreases s.len(),
{
    if s.len() == 0 {
        Seq::empty()
    } else if keep(s.last(), now, ttl) {
        surviving(s.drop_last(), now, ttl).push(s.last())
    } else {
        surviving(s.drop_last(), now, ttl)
    }
}

/// Membership in a pushed sequence.
pub proof fn lemma_push_contains<A>(s: Seq<A>, x: A, e: A)
    ensures
        s.push(x).contains(e) <==> (s.contains(e) || e == x),
{
    if s.push(x).contains(e) {
        let w = choose|w: int| 0 <= w < s.push(x).len() && s.push(x)[w] == e;
        if w < s.len() {
            assert(s[w] == e);
        }
    }
    if s.contains(e) {
        let w = choose|w: int| 0 <= w < s.len() && s[w] == e;
        assert(s.push(x)[w] == e);
    }
    if e == x {
        assert(s.push(x)[s.len() as int] == e);
    }
}

/// An element is in a sequence exactly when it is its last element or in
/// the rest.
pub proof fn lemma_contains_split<A>(s: Seq<A>, e: A)
    requires
        s.len() > 0,
    ensures
        s.contains(e) <==> (s.drop_last().contains(e) || s.last() == e),
{
    if s.contains(e) {
        let w = choose|w: int| 0 <= w < s.len() && s[w] == e;
        if w < s.len() - 1 {
            assert(s.drop_last()[w] == e);
        }
    }
    if s.drop_last().contains(e) {
        let w = choose|w: int| 0 <= w < s.drop_last().len() && s.drop_last()[w] == e;
        assert(s[w] == e);
    }
}

/// Eviction keeps exactly the entries that are young enough, and never
/// invents one.
pub proof fn lemma_surviving_membership(s: Seq<PresenceEntry>, now: u64, ttl: u64)
    ensures
        forall|e: PresenceEntry|
            #[trigger] surviving(s, now, ttl).contains(e) <==> s.contains(e) && keep(e, now, ttl),
    decreases s.len(),
{
    if s.len() > 0 {
        lemma_surviving_membership(s.drop_last(), now, ttl);
        assert forall|e: PresenceEntry|
            #[trigger] surviving(s, now, ttl).contains(e) <==> s.contains(e) && keep(
                e,
                now,
                ttl,
            ) by {
            lemma_contains_split(s, e);
            if keep(s.last(), now, ttl) {
                lemma_push_contains(surviving(s.drop_last(), now, ttl), s.last(), e);
            }
        }
    }
}

/// Eviction preserves pairwise distinct ids.
pub proof fn lemma_surviving_unique(s: Seq<PresenceEntry>, now: u64, ttl: u64)
    requires
        entry_unique_ids(s),
    ensures
        entry_unique_ids(surviving(s, now, ttl)),
    decreases s.len(),
{
    if s.len() > 0 {
        assert(entry_unique_ids(s.drop_last()));
        lemma_surviving_unique(s.drop_last(), now, ttl);
        lemma_surviving_membership(s.drop_last(), now, ttl);
        if keep(s.last(), now, ttl) {
            let t = surviving(s.drop_last(), now, ttl);
            assert forall|i: int, j: int|
                0 <= i < j < t.push(s.last()).len() implies t.push(s.last())[i].id != t.push(
                s.last(),
            )[j].id by {
                if j == t.len() {
                    assert(t.contains(t[i]));
                    let w = choose|w: int|
                        0 <= w < s.drop_last().len() && s.drop_last()[w] == t[i];
                    assert(s[w] == t[i]);
                    assert(s[s.len() - 1] == s.last());
                }
            }
        }
    }
}

/// Whether the description set holds a record for `id`.
pub open spec fn described(descs: DescriptionSet, id: u32) -> bool {
    exists|k: int| 0 <= k < descs.entries@.len() && descs.entries@[k].id == id
}

/// The first detected id that is neither already tracked nor described:
/// the id whose metadata resolution fails, when one exists.
pub open spec fn first_unresolvable(
    t: PresenceTracker,
    descs: DescriptionSet,
    detected: Seq<u32>,
) -> Option<u32>
    decreases detected.len(),
{
    if detected.len() == 0 {
        None
    } else if !t.spec_has(detected[0]) && !described(descs, detected[0]) {
        Some(detected[0])
    } else {
        first_unresolvable(t, descs, detected.drop_first())
    }
}

/// How `update` rewrites one already-tracked entry: identity and metadata
/// kept, the stamp set to `now` exactly when the id was detected.
pub open spec fn refreshed(
    oe: PresenceEntry,
    ne: PresenceEntry,
    detected: Seq<u32>,
    now: u64,
) -> bool {
    &&& ne.id == oe.id
    &&& ne.desc_index == oe.desc_index
    &&& ne.last_seen == (if detected.contains(oe.id) {
        now
    } else {
        oe.last_seen
    })
}

/// What holds of an entry `update` creates: a detected, previously
/// untracked id, metadata resolved in the description set, stamped `now`.
pub open spec fn fresh_entry(
    ne: PresenceEntry,
    t: PresenceTracker,
    descs: DescriptionSet,
    detected: Seq<u32>,
    now: u64,
) -> bool {
    &&& detected.contains(ne.id)
    &&& !t.spec_has(ne.id)
    &&& ne.desc_index < descs.entries@.len()
    &&& descs.entries@[ne.desc_index as int].id == ne.id
    &&& ne.last_seen == now
}

/// The tracker of currently ACTIVE detections.
#[derive(Clone, Debug)]
pub struct PresenceTracker {
    pub entries: Vec<PresenceEntry>,
    pub ttl: u64,
}

impl PresenceTracker {
    /// Well-formed: at most one entry per id.
    pub open spec fn wf(self) -> bool {
        entry_unique_ids(self.entries@)
    }

    /// Whether `id` is ACTIVE.
    pub open spec fn spec_has(self, id: u32) -> bool {
        exists|k: int| 0 <= k < self.entries@.len() && self.entries@[k].id == id
    }

    /// A tracker with no ACTIVE id and the given time-to-live.
    pub fn new(ttl: u64) -> (r: PresenceTracker)
        ensures
            r.wf(),
            r.entries@.len() == 0,
            r.ttl == ttl,
    {
        PresenceTracker { entries: Vec::new(), ttl }
    }

    /// The index of the entry tracking `id`, when there is one.
    fn find_index(&self, id: u32) -> (r: Option<usize>)
        ensures
            (r is Some) <==> self.spec_has(id),
            r is Some ==> r.unwrap() < self.entries.len() && self.entries[r.unwrap() as int].id
                == id,
    {
        let mut i: usize = 0;
        while i < self.entries.len()
            invariant
                i <= self.entries.len(),
                forall|k: int| 0 <= k < i ==> self.entries[k].id != id,
            decreases self.entries.len() - i,
        {
            if self.entries[i].id == id {
                return Some(i);
            }
            i = i + 1;
        }
        None
    }

    /// The currently ACTIVE entries, in the order they became ACTIVE.
    pub fn active_entries(&self) -> (r: &Vec<PresenceEntry>)
        ensures
            r@ == self.entries@,
    {
        &self.entries
    }

    /// Folds one cycle's detected ids in at time `now`: a tracked id is
    /// refreshed to `now`, an untracked one becomes ACTIVE with its
    /// metadata resolved in `descs`, and a failed resolution reports the
    /// first offending id and leaves the tracker unchanged.
    pub fn update(&mut self, detected: &Vec<u32>, now: u64, descs: &DescriptionSet) -> (r:
        Result<(), u32>)
        requires
            old(self).wf(),
            descs.wf(),
        ensures
            final(self).wf(),
            final(self).ttl == old(self).ttl,
            r == match first_unresolvable(*old(self), *descs, detected@) {
                None => Result::<(), u32>::Ok(()),
                Some(id) => Result::<(), u32>::Err(id),
            },
            r is Err ==> *final(self) == *old(self),
            r is Ok ==> final(self).entries@.len() >= old(self).entries@.len(),
            r is Ok ==> forall|k: int|
                0 <= k < old(self).entries@.len() ==> #[trigger] refreshed(
                    old(self).entries@[k],
                    final(self).entries@[k],
                    detected@,
                    now,
                ),
            r is Ok ==> forall|k: int|
                old(self).entries@.len() <= k < final(self).entries@.len() ==> #[trigger] fresh_entry(
                    final(self).entries@[k],
                    *old(self),
                    *descs,
                    detected@,
                    now,
                ),
            r is Ok ==> forall|id: u32|
                final(self).spec_has(id) <==> old(self).spec_has(id) || detected@.contains(id),
    {
        // first resolve every detection, so a failure leaves the state
        // untouched
        proof {
            assert(detected@.skip(0) =~= detected@);
        }
        let mut i: usize = 0;
        while i < detected.len()
            invariant
                *self == *old(self),
                old(self).wf(),
                descs.wf(),
                i <= detected.len(),
                first_unresolvable(*old(self), *descs, detected@) == first_unresolvable(
                    *old(self),
                    *descs,
                    detected@.skip(i as int),
                ),
                forall|k: int|
                    0 <= k < i ==> old(self).spec_has(#[trigger] detected@[k]) || described(
                        *descs,
                        detected@[k],
                    ),
            decreases detected.len() - i,
        {
            let id = detected[i];
            let known = self.find_index(id).is_some();
            let desc = descs.index_of(id);
            proof {
                assert(detected@.skip(i as int)[0] == detected@[i as int]);
                assert(detected@.skip(i as int).drop_first() =~= detected@.skip(i + 1));
            }
            if !known && desc.is_none() {
                proof {
                    assert(!old(self).spec_has(id));
                    assert(!described(*descs, id));
                    assert(first_unresolvable(*old(self), *descs, detected@.skip(i as int))
                        == Some(id));
                    assert(self.entries@ == old(self).entries@);
                    assert(entry_unique_ids(self.entries@));
                }
                return Err(id);
            }
            i = i + 1;
        }
        proof {
            assert(detected@.skip(detected.len() as int) =~= Seq::<u32>::empty());
            assert(first_unresolvable(*old(self), *descs, detected@) is None);
        }
        // then fold the detections in
        let ghost old_len = self.entries@.len() as int;
        let mut i: usize = 0;
        while i < detected.len()
            invariant
                descs.wf(),
                self.ttl == old(self).ttl,
                i <= detected.len(),
                entry_unique_ids(self.entries@),
                self.entries@.len() >= old(self).entries@.len(),
                old_len == old(self).entries@.len(),
                forall|k: int|
                    0 <= k < detected.len() ==> old(self).spec_has(#[trigger] detected@[k])
                        || described(*descs, detected@[k]),
                forall|k: int|
                    0 <= k < old_len ==> #[trigger] refreshed(
                        old(self).entries@[k],
                        self.entries@[k],
                        detected@.take(i as int),
                        now,
                    ),
                forall|k: int|
                    old_len <= k < self.entries@.len() ==> #[trigger] fresh_entry(
                        self.entries@[k],
                        *old(self),
                        *descs,
                        detected@.take(i as int),
                        now,
                    ),
                forall|id: u32|
                    self.spec_has(id) <==> old(self).spec_has(id) || detected@.take(
                        i as int,
                    ).contains(id),
            decreases detected.len() - i,
        {
            let id = detected[i];
            let ghost pre = self.entries@;
            proof {
                assert(detected@.take(i + 1) =~= detected@.take(i as int).push(
                    detected@[i as int],
                ));
            }
            match self.find_index(id) {
                Some(idx) => {
                    let mut e = self.entries[idx];
                    e.last_seen = now;
                    self.entries[idx] = e;
                    proof {
                        assert forall|x: u32|
                            self.spec_has(x) <==> old(self).spec_has(x) || detected@.take(
                                i + 1,
                            ).contains(x) by {
                            lemma_push_contains(detected@.take(i as int), id, x);
                            if self.spec_has(x) {
                                let k = choose|k: int|
                                    0 <= k < self.entries@.len() && self.entries@[k].id == x;
                                assert(pre[k].id == x);
                            }
                            if old(self).spec_has(x) || detected@.take(i as int).contains(x) {
                                let k = choose|k: int|
                                    0 <= k < pre.len() && pre[k].id == x;
                                assert(self.entries@[k].id == x);
                            }
                            if x == id {
                                assert(self.entries@[idx as int].id == x);
                            }
                        }
                        assert forall|k: int| 0 <= k < old_len implies #[trigger] refreshed(
                            old(self).entries@[k],
                            self.entries@[k],
                            detected@.take(i + 1),
                            now,
                        ) by {
                            let oe = old(self).entries@[k];
                            lemma_push_contains(detected@.take(i as int), id, oe.id);
                            assert(refreshed(oe, pre[k], detected@.take(i as int), now));
                            if k != idx as int {
                                assert(self.entries@[k] == pre[k]);
                                if oe.id == id {
                                    assert(pre[idx as int].id == id);
                                }
                            }
                        }
                        assert forall|k: int|
                            old_len <= k < self.entries@.len() implies #[trigger] fresh_entry(
                            self.entries@[k],
                            *old(self),
                            *descs,
                            detected@.take(i + 1),
                            now,
                        ) by {
                            let ne = self.entries@[k];
                            lemma_push_contains(detected@.take(i as int), id, ne.id);
                            assert(fresh_entry(pre[k], *old(self), *descs, detected@.take(i as int), now));
                            if k != idx as int {
                                assert(self.entries@[k] == pre[k]);
                            } else {
                                assert(pre[k].id == id);
                            }
                        }
                        assert forall|p: int, q: int|
                            0 <= p < q < self.entries@.len() implies self.entries@[p].id
                            != self.entries@[q].id by {
                            assert(self.entries@[p].id == pre[p].id);
                            assert(self.entries@[q].id == pre[q].id);
                        }
                    }
                },
                None => {
                    let d = match descs.index_of(id) {
                        Some(d) => d,
                        None => {
                            proof {
                                assert(detected@[i as int] == id);
                                assert(old(self).spec_has(id) || described(*descs, id));
                                if old(self).spec_has(id) {
                                    assert(self.spec_has(id));
                                }
                                assert(false);
                            }
                            0
                        },
                    };
                    self.entries.push(PresenceEntry { id, desc_index: d, last_seen: now });
                    proof {
                        let ne = PresenceEntry { id, desc_index: d, last_seen: now };
                        assert(self.entries@ =~= pre.push(ne));
                        assert forall|x: u32|
                            self.spec_has(x) <==> old(self).spec_has(x) || detected@.take(
                                i + 1,
                            ).contains(x) by {
                            lemma_push_contains(detected@.take(i as int), id, x);
                            if self.spec_has(x) {
                                let k = choose|k: int|
                                    0 <= k < self.entries@.len() && self.entries@[k].id == x;
                                if k < pre.len() {
                                    assert(pre[k].id == x);
                                } else {
                                    assert(x == id);
                                }
                            }
                            if old(self).spec_has(x) || detected@.take(i as int).contains(x) {
                                let k = choose|k: int|
                                    0 <= k < pre.len() && pre[k].id == x;
                                assert(self.entries@[k].id == x);
                            }
                            if x == id {
                                assert(self.entries@[pre.len() as int].id == x);
                            }
                        }
                        assert forall|k: int| 0 <= k < old_len implies #[trigger] refreshed(
                            old(self).entries@[k],
                            self.entries@[k],
                            detected@.take(i + 1),
                            now,
                        ) by {
                            let oe = old(self).entries@[k];
                            lemma_push_contains(detected@.take(i as int), id, oe.id);
                            assert(refreshed(oe, pre[k], detected@.take(i as int), now));
                            assert(self.entries@[k] == pre[k]);
                            if oe.id == id {
                                assert(pre[k].id == id);
                                assert(false);
                            }
                        }
                        assert forall|k: int|
                            old_len <= k < self.entries@.len() implies #[trigger] fresh_entry(
                            self.entries@[k],
                            *old(self),
                            *descs,
                            detected@.take(i + 1),
                            now,
                        ) by {
                            let ne2 = self.entries@[k];
                            lemma_push_contains(detected@.take(i as int), id, ne2.id);
                            if k < pre.len() {
                                assert(fresh_entry(
                                    pre[k],
                                    *old(self),
                                    *descs,
                                    detected@.take(i as int),
                                    now,
                                ));
                                assert(self.entries@[k] == pre[k]);
                            } else {
                                assert(ne2 == ne);
                                assert(!self.spec_has(id) ==> !old(self).spec_has(id));
                                if old(self).spec_has(id) {
                                    let w = choose|w: int|
                                        0 <= w < old(self).entries@.len() && old(
                                            self,
                                        ).entries@[w].id == id;
                                    assert(pre[w].id == id);
                                }
                            }
                        }
                        assert forall|p: int, q: int|
                            0 <= p < q < self.entries@.len() implies self.entries@[p].id
                            != self.entries@[q].id by {
                            if q < pre.len() {
                                assert(pre[p].id != pre[q].id);
                            } else {
                                assert(self.entries@[q].id == id);
                                assert(pre[p].id != id);
                            }
                        }
                    }
                },
            }
            i = i + 1;
        }
        proof {
            assert(detected@.take(detected.len() as int) =~= detected@);
        }
        Ok(())
    }

    /// Removes every entry whose last detection is more than the
    /// time-to-live ago: an entry survives exactly when `now` does not
    /// exceed its stamp plus the time-to-live, so an entry refreshed this
    /// cycle always survives.
    pub fn evict(&mut self, now: u64)
        requires
            old(self).wf(),
        ensures
            final(self).wf(),
            final(self).ttl == old(self).ttl,
            final(self).entries@ == surviving(old(self).entries@, now, old(self).ttl),
            forall|e: PresenceEntry|
                final(self).entries@.contains(e) <==> old(self).entries@.contains(e) && keep(
                    e,
                    now,
                    old(self).ttl,
                ),
    {
        let ttl = self.ttl;
        let mut kept: Vec<PresenceEntry> = Vec::new();
        let mut i: usize = 0;
        while i < self.entries.len()
            invariant
                *self == *old(self),
                ttl == self.ttl,
                i <= self.entries.len(),
                kept@ == surviving(self.entries@.take(i as int), now, ttl),
            decreases self.entries.len() - i,
        {
            let e = self.entries[i];
            proof {
                assert(self.entries@.take(i + 1).drop_last() =~= self.entries@.take(i as int));
                assert(self.entries@.take(i + 1).last() == self.entries@[i as int]);
            }
            let fresh = if now <= e.last_seen {
                true
            } else {
                now - e.last_seen <= ttl
            };
            if fresh {
                kept.push(e);
            }
            i = i + 1;
        }
        proof {
            assert(self.entries@.take(self.entries.len() as int) =~= self.entries@);
            lemma_surviving_unique(self.entries@, now, ttl);
            lemma_surviving_membership(self.entries@, now, ttl);
        }
        self.entries = kept;
    }
}

} // verus!
