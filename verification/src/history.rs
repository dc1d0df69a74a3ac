//! The frame history store: one previous-frame snapshot per live entity.

use vstd::prelude::*;

use crate::entity::Snapshot;
use crate::entity::bbox;
use crate::entity::spec_snap_bbox;
use crate::rect::Rect;

verus! {

/// Per-entity snapshots of the previous rendered frame, kept in the order
/// the entities were first seen.  Entity ids are unique.
pub struct FrameHistoryStore {
    pub entries: Vec<(u64, Snapshot)>,
}

impl FrameHistoryStore {
    /// No entity id occurs twice.
    pub open spec fn wf(self) -> bool {
        forall|i: int, j: int|
            0 <= i < j < self.entries@.len() ==> (#[trigger] self.entries@[i]).0 != (
            #[trigger] self.entries@[j]).0
    }

    /// A snapshot is stored for `id`.
    pub open spec fn contains_id(self, id: u64) -> bool {
        exists|k: int| 0 <= k < self.entries@.len() && (#[trigger] self.entries@[k]).0 == id
    }

    /// The position of `id` in the store.
    pub open spec fn index_of(self, id: u64) -> int {
        choose|k: int| 0 <= k < self.entries@.len() && (#[trigger] self.entries@[k]).0 == id
    }

    /// The snapshot stored for `id`.
    pub open spec fn snap_of(self, id: u64) -> Snapshot {
        self.entries@[self.index_of(id)].1
    }

    /// With unique ids, the chosen index for a stored id is the only one.
    pub proof fn lemma_lookup(self, id: u64)
        requires
            self.wf(),
            self.contains_id(id),
        ensures
            0 <= self.index_of(id) < self.entries@.len(),
            self.entries@[self.index_of(id)].0 == id,
            forall|k: int|
                0 <= k < self.entries@.len() && (#[trigger] self.entries@[k]).0 == id ==> k
                    == self.index_of(id),
    {
        let w = choose|k: int|
            0 <= k < self.entries@.len() && (#[trigger] self.entries@[k]).0 == id;
        assert(self.entries@[w].0 == id);
    }

    /// An empty store: nothing has been seen yet.
    pub fn new() -> (h: FrameHistoryStore)
        ensures
            h.wf(),
            h.entries@.len() == 0,
            forall|id: u64| !h.contains_id(id),
    {
        FrameHistoryStore { entries: Vec::new() }
    }

    /// How many entities have a stored snapshot.
    pub fn len(&self) -> (n: usize)
        ensures
            n == self.entries@.len(),
    {
        self.entries.len()
    }

    /// The entry at position `k`, in first-seen order.
    pub fn get(&self, k: usize) -> (e: (u64, Snapshot))
        requires
            k < self.entries@.len(),
        ensures
            e == self.entries@[k as int],
    {
        (self.entries[k].0, self.entries[k].1)
    }

    /// Finds the position of a stored id.
    fn find(&self, id: u64) -> (k: usize)
        requires
            self.wf(),
            self.contains_id(id),
        ensures
            k as int == self.index_of(id),
            k < self.entries@.len(),
            self.entries@[k as int].0 == id,
    {
        let mut k: usize = 0;
        while k < self.entries.len()
            invariant
                0 <= k <= self.entries@.len(),
                self.wf(),
                self.contains_id(id),
                forall|j: int| 0 <= j < k ==> (#[trigger] self.entries@[j]).0 != id,
            decreases self.entries@.len() - k,
        {
            if self.entries[k].0 == id {
                proof {
                    self.lemma_lookup(id);
                }
                return k;
            }
            k += 1;
        }
        proof {
            self.lemma_lookup(id);
            assert(false);
        }
        0
    }

    /// Returns the stored snapshot for `id`, or `None` if the entity has
    /// never been seen.
    pub fn observe(&self, id: u64) -> (r: Option<Snapshot>)
        requires
            self.wf(),
        ensures
            r is Some <==> self.contains_id(id),
            r matches Some(s) ==> s == self.snap_of(id),
    {
        let mut k: usize = 0;
        while k < self.entries.len()
            invariant
                0 <= k <= self.entries@.len(),
                self.wf(),
                forall|j: int| 0 <= j < k ==> (#[trigger] self.entries@[j]).0 != id,
            decreases self.entries@.len() - k,
        {
            if self.entries[k].0 == id {
                proof {
                    assert(self.contains_id(id));
                    self.lemma_lookup(id);
                }
                return Some(self.entries[k].1);
            }
            k += 1;
        }
        None
    }

    /// Inserts the baseline snapshot for a never-before-seen entity.
    pub fn seed(&mut self, id: u64, snap: Snapshot)
        requires
            old(self).wf(),
            !old(self).contains_id(id),
        ensures
            final(self).wf(),
            final(self).entries@ == old(self).entries@.push((id, snap)),
            final(self).contains_id(id),
            final(self).snap_of(id) == snap,
            forall|other: u64|
                other != id ==> (final(self).contains_id(other) == old(self).contains_id(other)),
            forall|other: u64|
                other != id && old(self).contains_id(other) ==> final(self).snap_of(other) == old(
                    self,
                ).snap_of(other),
    {
        let ghost o = *self;
        let ghost n = self.entries@.len();
        self.entries.push((id, snap));
        proof {
            let s = *self;
            assert(s.entries@[n as int].0 == id);
            assert forall|i: int, j: int|
                0 <= i < j < s.entries@.len() implies (#[trigger] s.entries@[i]).0 != (
            #[trigger] s.entries@[j]).0 by {
                if j < n as int {
                    assert(s.entries@[i] == o.entries@[i]);
                    assert(s.entries@[j] == o.entries@[j]);
                } else {
                    assert(s.entries@[i] == o.entries@[i]);
                    if s.entries@[i].0 == id {
                        assert(o.contains_id(id));
                    }
                }
            }
            s.lemma_lookup(id);
            assert forall|other: u64| other != id implies (s.contains_id(other) == o.contains_id(
                other,
            )) by {
                if o.contains_id(other) {
                    let k = choose|k: int|
                        0 <= k < o.entries@.len() && (#[trigger] o.entries@[k]).0 == other;
                    assert(s.entries@[k].0 == other);
                }
                if s.contains_id(other) {
                    let k = choose|k: int|
                        0 <= k < s.entries@.len() && (#[trigger] s.entries@[k]).0 == other;
                    assert(k < n as int);
                    assert(o.entries@[k].0 == other);
                }
            }
            assert forall|other: u64| other != id && o.contains_id(other) implies s.snap_of(other)
                == o.snap_of(other) by {
                s.lemma_lookup(other);
                o.lemma_lookup(other);
                let k = s.index_of(other);
                assert(o.entries@[k].0 == other);
            }
        }
    }

    /// Overwrites the stored snapshot after a frame's compositing completes.
    /// Committing an entity that was never seeded is a broken phase ordering
    /// and is ruled out by the precondition.
    pub fn commit(&mut self, id: u64, snap: Snapshot)
        requires
            old(self).wf(),
            old(self).contains_id(id),
        ensures
            final(self).wf(),
            final(self).entries@.len() == old(self).entries@.len(),
            forall|k: int|
                0 <= k < old(self).entries@.len() ==> (#[trigger] final(self).entries@[k]).0 == (
                #[trigger] old(self).entries@[k]).0,
            forall|other: u64| final(self).contains_id(other) == old(self).contains_id(other),
            final(self).snap_of(id) == snap,
            forall|other: u64|
                other != id && old(self).contains_id(other) ==> final(self).snap_of(other) == old(
                    self,
                ).snap_of(other),
    {
        let ghost o = *self;
        let k = self.find(id);
        self.entries[k] = (id, snap);
        proof {
            let s = *self;
            assert(s.entries@ == o.entries@.update(k as int, (id, snap)));
            assert forall|j: int| 0 <= j < s.entries@.len() implies (#[trigger] s.entries@[j]).0
                == o.entries@[j].0 by {}
            assert forall|i: int, j: int|
                0 <= i < j < s.entries@.len() implies (#[trigger] s.entries@[i]).0 != (
            #[trigger] s.entries@[j]).0 by {
                assert(s.entries@[i].0 == o.entries@[i].0);
                assert(s.entries@[j].0 == o.entries@[j].0);
            }
            assert forall|other: u64| s.contains_id(other) == o.contains_id(other) by {
                if o.contains_id(other) {
                    let j = choose|j: int|
                        0 <= j < o.entries@.len() && (#[trigger] o.entries@[j]).0 == other;
                    assert(s.entries@[j].0 == other);
                }
                if s.contains_id(other) {
                    let j = choose|j: int|
                        0 <= j < s.entries@.len() && (#[trigger] s.entries@[j]).0 == other;
                    assert(o.entries@[j].0 == other);
                }
            }
            assert(s.entries@[k as int].0 == id);
            s.lemma_lookup(id);
            assert(s.snap_of(id) == snap);
            assert forall|other: u64| other != id && o.contains_id(other) implies s.snap_of(other)
                == o.snap_of(other) by {
                s.lemma_lookup(other);
                o.lemma_lookup(other);
                let j = s.index_of(other);
                assert(o.entries@[j].0 == other);
                assert(j != k as int);
            }
        }
    }

    /// Removes the snapshot of a despawned entity and returns its last
    /// known bounding box, to be scheduled for one final clear.
    pub fn forget(&mut self, id: u64) -> (last_box: Rect)
        requires
            old(self).wf(),
            old(self).contains_id(id),
        ensures
            final(self).wf(),
            last_box == spec_snap_bbox(old(self).snap_of(id)),
            final(self).entries@ == old(self).entries@.remove(old(self).index_of(id)),
            !final(self).contains_id(id),
            forall|other: u64|
                other != id ==> (final(self).contains_id(other) == old(self).contains_id(other)),
            forall|other: u64|
                other != id && old(self).contains_id(other) ==> final(self).snap_of(other) == old(
                    self,
                ).snap_of(other),
    {
        let ghost o = *self;
        let k = self.find(id);
        let entry = self.entries.remove(k);
        proof {
            let s = *self;
            assert(s.entries@ == o.entries@.remove(k as int));
            assert forall|i: int, j: int|
                0 <= i < j < s.entries@.len() implies (#[trigger] s.entries@[i]).0 != (
            #[trigger] s.entries@[j]).0 by {
                let oi = if i < k as int { i } else { i + 1 };
                let oj = if j < k as int { j } else { j + 1 };
                assert(s.entries@[i] == o.entries@[oi]);
                assert(s.entries@[j] == o.entries@[oj]);
            }
            assert forall|other: u64| s.contains_id(other) implies (other != id && o.contains_id(
                other,
            )) by {
                let j = choose|j: int|
                    0 <= j < s.entries@.len() && (#[trigger] s.entries@[j]).0 == other;
                let oj = if j < k as int { j } else { j + 1 };
                assert(s.entries@[j] == o.entries@[oj]);
                assert(o.entries@[oj].0 == other);
                o.lemma_lookup(id);
            }
            assert forall|other: u64| other != id && o.contains_id(other) implies s.contains_id(
                other,
            ) by {
                o.lemma_lookup(other);
                let oj = o.index_of(other);
                let j = if oj < k as int { oj } else { oj - 1 };
                assert(s.entries@[j] == o.entries@[oj]);
            }
            assert forall|other: u64| other != id && o.contains_id(other) implies s.snap_of(other)
                == o.snap_of(other) by {
                s.lemma_lookup(other);
                o.lemma_lookup(other);
                let j = s.index_of(other);
                let oj = if j < k as int { j } else { j + 1 };
                assert(s.entries@[j] == o.entries@[oj]);
                assert(o.entries@[oj].0 == other);
            }
        }
        bbox(entry.1.position, entry.1.width, entry.1.height)
    }
}

} // verus!
