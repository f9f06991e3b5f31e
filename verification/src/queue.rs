//! The pending queue: reserved-but-not-yet-durable entries.
//!
//! A unique priority queue ordered by reservation id, with digest uniqueness
//! and a readiness flag per entry. It drains in ascending id order and stops
//! at the first entry that is not ready, which is what keeps the durable
//! store's insertion order equal to the reservation order.

use vstd::prelude::*;

use crate::bytes::{bytes_eq, clone_bytes, clone_opt_bytes, opt_bytes_view};
use crate::ordered_collection::{kvs_has_key, kvs_sorted, OrderedCollection};

verus! {

/// Abstract value of an in-memory entry.
pub ghost struct QueueEntryV {
    pub id: int,
    pub level: int,
    pub payload: Option<Seq<u8>>,
    pub persistent_ref: Option<Seq<u8>>,
}

/// An in-memory record for a reserved digest: its reservation id, its level
/// in the hash tree, an optional payload and an optional blob reference.
pub struct QueueEntry {
    pub id: i64,
    pub level: i64,
    pub payload: Option<Vec<u8>>,
    pub persistent_ref: Option<Vec<u8>>,
}

impl View for QueueEntry {
    type V = QueueEntryV;

    open spec fn view(&self) -> QueueEntryV {
        QueueEntryV {
            id: self.id as int,
            level: self.level as int,
            payload: opt_bytes_view(self.payload),
            persistent_ref: opt_bytes_view(self.persistent_ref),
        }
    }
}

impl QueueEntry {
    /// A copy of this entry, equal to the original.
    pub fn duplicate(&self) -> (r: QueueEntry)
        ensures
            r@ == self@,
    {
        QueueEntry {
            id: self.id,
            level: self.level,
            payload: clone_opt_bytes(&self.payload),
            persistent_ref: clone_opt_bytes(&self.persistent_ref),
        }
    }
}

/// The abstract value of an optional entry.
pub open spec fn opt_entry_view(o: Option<QueueEntry>) -> Option<QueueEntryV> {
    match o {
        Option::Some(e) => Option::Some(e@),
        Option::None => Option::None,
    }
}

/// Abstract value of one queue slot.
pub ghost struct SlotV {
    pub id: int,
    pub digest: Seq<u8>,
    pub entry: Option<QueueEntryV>,
    pub ready: bool,
}

/// One reserved digest: the priority placeholder, its attached entry once
/// `put_value` ran, and the readiness flag set by a commit.
pub struct Slot {
    pub digest: Vec<u8>,
    pub entry: Option<QueueEntry>,
    pub ready: bool,
}

/// Reserved entries keyed by reservation id, kept in ascending id order.
pub struct UniquePriorityQueue {
    pub pending: Vec<(i64, Slot)>,
}

impl View for UniquePriorityQueue {
    type V = Seq<SlotV>;

    open spec fn view(&self) -> Seq<SlotV> {
        self.pending@.map_values(
            |p: (i64, Slot)|
                SlotV {
                    id: p.0 as int,
                    digest: p.1.digest@,
                    entry: opt_entry_view(p.1.entry),
                    ready: p.1.ready,
                },
        )
    }
}

/// Ids strictly increase along the queue.
pub open spec fn slots_sorted(s: Seq<SlotV>) -> bool {
    forall|i: int, j: int| 0 <= i < j < s.len() ==> (#[trigger] s[i]).id < (#[trigger] s[j]).id
}

/// A well-formed queue: sorted ids, unique non-empty digests, every attached
/// entry carries its slot's id, and only slots with an entry can be ready.
pub open spec fn slots_wf(s: Seq<SlotV>) -> bool {
    &&& slots_sorted(s)
    &&& forall|i: int, j: int|
        0 <= i < j < s.len() ==> (#[trigger] s[i]).digest != (#[trigger] s[j]).digest
    &&& forall|i: int| 0 <= i < s.len() ==> (#[trigger] s[i]).digest.len() > 0
    &&& forall|i: int|
        0 <= i < s.len() ==> match (#[trigger] s[i]).entry {
            Option::Some(e) => e.id == s[i].id,
            Option::None => !s[i].ready,
        }
}

/// Some slot carries the digest `d`.
pub open spec fn slots_have_digest(s: Seq<SlotV>, d: Seq<u8>) -> bool {
    exists|i: int| 0 <= i < s.len() && (#[trigger] s[i]).digest == d
}

/// The index of the slot for digest `d` (unique when well formed).
pub open spec fn slot_index_of_digest(s: Seq<SlotV>, d: Seq<u8>) -> int {
    choose|i: int| 0 <= i < s.len() && (#[trigger] s[i]).digest == d
}

/// Some slot carries the id `id`.
pub open spec fn slots_have_id(s: Seq<SlotV>, id: int) -> bool {
    exists|i: int| 0 <= i < s.len() && (#[trigger] s[i]).id == id
}

/// The index of the slot with id `id` (unique when sorted).
pub open spec fn slot_index_of_id(s: Seq<SlotV>, id: int) -> int {
    choose|i: int| 0 <= i < s.len() && (#[trigger] s[i]).id == id
}

impl UniquePriorityQueue {
    /// An empty queue.
    pub fn new() -> (q: UniquePriorityQueue)
        ensures
            q@ == Seq::<SlotV>::empty(),
            slots_wf(q@),
    {
        let q = UniquePriorityQueue { pending: Vec::new() };
        proof {
            assert(q@ =~= Seq::<SlotV>::empty());
        }
        q
    }

    /// Number of pending entries.
    pub fn len(&self) -> (r: usize)
        ensures
            r == self@.len(),
    {
        self.pending.len()
    }

    /// The reservation id of the slot holding `digest`, when present.
    pub fn find_id(&self, digest: &Vec<u8>) -> (r: Option<i64>)
        requires
            slots_wf(self@),
        ensures
            match r {
                Option::Some(id) => slots_have_digest(self@, digest@) && id as int == self@[
                    slot_index_of_digest(self@, digest@)
                ].id,
                Option::None => !slots_have_digest(self@, digest@),
            },
    {
        let n = self.pending.len();
        let mut i: usize = 0;
        while i < n
            invariant
                slots_wf(self@),
                n == self@.len(),
                i <= n,
                forall|j: int| 0 <= j < i ==> (#[trigger] self@[j]).digest != digest@,
            decreases n - i,
        {
            if bytes_eq(&self.pending[i].1.digest, digest) {
                proof {
                    assert(self@[i as int].digest == digest@);
                    assert(slots_have_digest(self@, digest@));
                    let idx = slot_index_of_digest(self@, digest@);
                    assert(0 <= idx < self@.len() && self@[idx].digest == digest@);
                    if idx != i as int {
                        assert(self@[idx].digest != self@[i as int].digest);
                    }
                }
                return Option::Some(self.pending[i].0);
            }
            i += 1;
        }
        Option::None
    }

    /// A copy of the entry attached to `digest`, when one is attached.
    pub fn find_entry(&self, digest: &Vec<u8>) -> (r: Option<QueueEntry>)
        requires
            slots_wf(self@),
        ensures
            match r {
                Option::Some(qe) => slots_have_digest(self@, digest@) && self@[
                    slot_index_of_digest(self@, digest@)
                ].entry == Option::Some(qe@),
                Option::None => !slots_have_digest(self@, digest@) || self@[
                    slot_index_of_digest(self@, digest@)
                ].entry is None,
            },
    {
        let n = self.pending.len();
        let mut i: usize = 0;
        while i < n
            invariant
                slots_wf(self@),
                n == self@.len(),
                i <= n,
                forall|j: int| 0 <= j < i ==> (#[trigger] self@[j]).digest != digest@,
            decreases n - i,
        {
            if bytes_eq(&self.pending[i].1.digest, digest) {
                proof {
                    assert(self@[i as int].digest == digest@);
                    assert(slots_have_digest(self@, digest@));
                    let idx = slot_index_of_digest(self@, digest@);
                    assert(0 <= idx < self@.len() && self@[idx].digest == digest@);
                    if idx != i as int {
                        assert(self@[idx].digest != self@[i as int].digest);
                    }
                }
                return match &self.pending[i].1.entry {
                    Option::Some(e) => Option::Some(e.duplicate()),
                    Option::None => Option::None,
                };
            }
            i += 1;
        }
        Option::None
    }

    /// Reserves a fresh id for a new digest; refuses a digest already present.
    pub fn reserve_priority(&mut self, id: i64, digest: Vec<u8>) -> (r: Result<(), ()>)
        requires
            slots_wf(old(self)@),
            digest@.len() > 0,
            forall|i: int| 0 <= i < old(self)@.len() ==> (#[trigger] old(self)@[i]).id < id,
        ensures
            slots_wf(final(self)@),
            match r {
                Result::Ok(u) => !slots_have_digest(old(self)@, digest@) && final(self)@ == old(
                    self,
                )@.push(SlotV { id: id as int, digest: digest@, entry: Option::None, ready: false }),
                Result::Err(u) => slots_have_digest(old(self)@, digest@) && final(self)@ == old(
                    self,
                )@,
            },
    {
        let ghost s0 = self@;
        let n = self.pending.len();
        let mut i: usize = 0;
        while i < n
            invariant
                s0 == old(self)@,
                self@ == s0,
                slots_wf(s0),
                n == self@.len(),
                i <= n,
                forall|j: int| 0 <= j < i ==> (#[trigger] s0[j]).digest != digest@,
            decreases n - i,
        {
            if bytes_eq(&self.pending[i].1.digest, &digest) {
                proof {
                    assert(s0[i as int].digest == digest@);
                    assert(slots_have_digest(s0, digest@));
                }
                return Result::Err(());
            }
            i += 1;
        }
        proof {
            assert(!slots_have_digest(s0, digest@));
            assert forall|j: int| 0 <= j < self.pending@.len() implies (#[trigger] self.pending@[
                j
            ]).0 < id by {
                assert(self@[j].id == self.pending@[j].0 as int);
            }
            assert(kvs_sorted(self.pending@)) by {
                assert forall|a: int, b: int|
                    0 <= a < b < self.pending@.len() implies (#[trigger] self.pending@[a]).0
                    < (#[trigger] self.pending@[b]).0 by {
                    assert(self@[a].id < self@[b].id);
                }
            }
            assert(!kvs_has_key(self.pending@, id));
        }
        let ghost d_view = digest@;
        self.pending.insert_unique(id, Slot { digest, entry: Option::None, ready: false });
        proof {
            assert(self@ =~= s0.push(
                SlotV { id: id as int, digest: d_view, entry: Option::None, ready: false },
            ));
            assert forall|a: int, b: int|
                0 <= a < b < self@.len() implies (#[trigger] self@[a]).id
                < (#[trigger] self@[b]).id by {
                if b < s0.len() {
                    assert(self@[a] == s0[a] && self@[b] == s0[b]);
                } else {
                    assert(self@[a] == s0[a]);
                    assert(s0[a].id < id);
                }
            }
            assert forall|a: int, b: int|
                0 <= a < b < self@.len() implies (#[trigger] self@[a]).digest
                != (#[trigger] self@[b]).digest by {
                if b < s0.len() {
                    assert(self@[a] == s0[a] && self@[b] == s0[b]);
                } else {
                    assert(self@[a] == s0[a]);
                    assert(!slots_have_digest(s0, d_view));
                }
            }
        }
        Result::Ok(())
    }

    /// Attaches or replaces the entry for `digest`; id and readiness keep
    /// their values. The entry must carry the slot's reservation id.
    pub fn update_value(&mut self, digest: &Vec<u8>, qe: QueueEntry)
        requires
            slots_wf(old(self)@),
            slots_have_digest(old(self)@, digest@),
            qe.id as int == old(self)@[slot_index_of_digest(old(self)@, digest@)].id,
        ensures
            slots_wf(final(self)@),
            final(self)@ == old(self)@.update(
                slot_index_of_digest(old(self)@, digest@),
                SlotV {
                    id: old(self)@[slot_index_of_digest(old(self)@, digest@)].id,
                    digest: digest@,
                    entry: Option::Some(qe@),
                    ready: old(self)@[slot_index_of_digest(old(self)@, digest@)].ready,
                },
            ),
    {
        let ghost s0 = self@;
        let n = self.pending.len();
        let mut i: usize = 0;
        while i < n
            invariant
                s0 == old(self)@,
                self@ == s0,
                slots_wf(s0),
                slots_have_digest(s0, digest@),
                qe.id as int == s0[slot_index_of_digest(s0, digest@)].id,
                n == self@.len(),
                i <= n,
                forall|j: int| 0 <= j < i ==> (#[trigger] s0[j]).digest != digest@,
            decreases n - i,
        {
            if bytes_eq(&self.pending[i].1.digest, digest) {
                proof {
                    let idx = slot_index_of_digest(s0, digest@);
                    assert(0 <= idx < s0.len() && s0[idx].digest == digest@);
                    if idx != i as int {
                        assert(s0[idx].digest != s0[i as int].digest);
                    }
                }
                let ghost pvec = self.pending@;
                let (k, mut sl) = self.pending.remove(i);
                sl.entry = Option::Some(qe);
                self.pending.insert(i, (k, sl));
                proof {
                    assert(self.pending@ =~= pvec.update(i as int, (k, sl)));
                    assert(self@ =~= s0.update(
                        i as int,
                        SlotV {
                            id: s0[i as int].id,
                            digest: digest@,
                            entry: Option::Some(qe@),
                            ready: s0[i as int].ready,
                        },
                    ));
                    assert forall|a: int, b: int|
                        0 <= a < b < self@.len() implies (#[trigger] self@[a]).id
                        < (#[trigger] self@[b]).id by {
                        assert(self@[a].id == s0[a].id && self@[b].id == s0[b].id);
                    }
                    assert forall|a: int, b: int|
                        0 <= a < b < self@.len() implies (#[trigger] self@[a]).digest
                        != (#[trigger] self@[b]).digest by {
                        assert(self@[a].digest == s0[a].digest);
                        assert(self@[b].digest == s0[b].digest);
                    }
                }
                return ;
            }
            i += 1;
        }
        proof {
            assert(!slots_have_digest(s0, digest@));
            assert(false);
        }
    }

    /// Attaches the entry for a digest reserved by `reserve_priority`.
    pub fn put_value(&mut self, digest: &Vec<u8>, qe: QueueEntry)
        requires
            slots_wf(old(self)@),
            slots_have_digest(old(self)@, digest@),
            qe.id as int == old(self)@[slot_index_of_digest(old(self)@, digest@)].id,
        ensures
            slots_wf(final(self)@),
            final(self)@ == old(self)@.update(
                slot_index_of_digest(old(self)@, digest@),
                SlotV {
                    id: old(self)@[slot_index_of_digest(old(self)@, digest@)].id,
                    digest: digest@,
                    entry: Option::Some(qe@),
                    ready: old(self)@[slot_index_of_digest(old(self)@, digest@)].ready,
                },
            ),
    {
        self.update_value(digest, qe);
    }

    /// Marks the slot with reservation id `id` as ready to drain; idempotent.
    pub fn set_ready(&mut self, id: i64)
        requires
            slots_wf(old(self)@),
            slots_have_id(old(self)@, id as int),
            old(self)@[slot_index_of_id(old(self)@, id as int)].entry is Some,
        ensures
            slots_wf(final(self)@),
            final(self)@ == old(self)@.update(
                slot_index_of_id(old(self)@, id as int),
                SlotV {
                    id: id as int,
                    digest: old(self)@[slot_index_of_id(old(self)@, id as int)].digest,
                    entry: old(self)@[slot_index_of_id(old(self)@, id as int)].entry,
                    ready: true,
                },
            ),
    {
        let ghost s0 = self@;
        let n = self.pending.len();
        let mut i: usize = 0;
        while i < n
            invariant
                s0 == old(self)@,
                self@ == s0,
                slots_wf(s0),
                slots_have_id(s0, id as int),
                s0[slot_index_of_id(s0, id as int)].entry is Some,
                n == self@.len(),
                i <= n,
                forall|j: int| 0 <= j < i ==> (#[trigger] s0[j]).id != id as int,
            decreases n - i,
        {
            if self.pending[i].0 == id {
                proof {
                    let idx = slot_index_of_id(s0, id as int);
                    assert(0 <= idx < s0.len() && s0[idx].id == id as int);
                    if idx < i as int {
                        assert(s0[idx].id < s0[i as int].id);
                    } else if idx > i as int {
                        assert(s0[i as int].id < s0[idx].id);
                    }
                }
                let ghost pvec = self.pending@;
                let (k, mut sl) = self.pending.remove(i);
                sl.ready = true;
                self.pending.insert(i, (k, sl));
                proof {
                    assert(self.pending@ =~= pvec.update(i as int, (k, sl)));
                    assert(self@ =~= s0.update(
                        i as int,
                        SlotV {
                            id: id as int,
                            digest: s0[i as int].digest,
                            entry: s0[i as int].entry,
                            ready: true,
                        },
                    ));
                    assert forall|a: int, b: int|
                        0 <= a < b < self@.len() implies (#[trigger] self@[a]).id
                        < (#[trigger] self@[b]).id by {
                        assert(self@[a].id == s0[a].id && self@[b].id == s0[b].id);
                    }
                    assert forall|a: int, b: int|
                        0 <= a < b < self@.len() implies (#[trigger] self@[a]).digest
                        != (#[trigger] self@[b]).digest by {
                        assert(self@[a].digest == s0[a].digest);
                        assert(self@[b].digest == s0[b].digest);
                    }
                }
                return ;
            }
            i += 1;
        }
        proof {
            assert(!slots_have_id(s0, id as int));
            assert(false);
        }
    }

    /// Removes and returns the minimum-id slot when it is ready; returns
    /// nothing when the queue is empty or its minimum is not ready, so a
    /// drain stops at the first non-ready reservation.
    pub fn pop_min_if_ready(&mut self) -> (r: Option<(i64, Vec<u8>, QueueEntry)>)
        requires
            slots_wf(old(self)@),
        ensures
            slots_wf(final(self)@),
            old(self)@.len() > 0 && old(self)@[0].ready ==> (r matches Option::Some(t)
                && t.0 as int == old(self)@[0].id && t.1@ == old(self)@[0].digest && Option::Some(
                t.2@,
            ) == old(self)@[0].entry && final(self)@ == old(self)@.drop_first()),
            !(old(self)@.len() > 0 && old(self)@[0].ready) ==> r is None && final(self)@ == old(
                self,
            )@,
    {
        let ghost s0 = self@;
        if self.pending.len() == 0 {
            return Option::None;
        }
        if !self.pending[0].1.ready {
            return Option::None;
        }
        proof {
            assert(s0[0].ready);
            assert(s0[0].entry is Some);
            assert(kvs_sorted(self.pending@)) by {
                assert forall|a: int, b: int|
                    0 <= a < b < self.pending@.len() implies (#[trigger] self.pending@[a]).0
                    < (#[trigger] self.pending@[b]).0 by {
                    assert(self@[a].id < self@[b].id);
                }
            }
        }
        match self.pending.pop_min() {
            Option::Some((id, sl)) => {
                proof {
                    assert(self@ =~= s0.drop_first()) by {
                        assert(self.pending@ == old(self).pending@.subrange(
                            1,
                            old(self).pending@.len() as int,
                        ));
                        assert(self@.len() == s0.len() - 1);
                        assert(forall|j: int| 0 <= j < self@.len() ==> self@[j] == s0[j + 1]);
                    }
                    assert forall|a: int, b: int|
                        0 <= a < b < self@.len() implies (#[trigger] self@[a]).id
                        < (#[trigger] self@[b]).id by {
                        assert(self@[a] == s0[a + 1] && self@[b] == s0[b + 1]);
                    }
                    assert forall|a: int, b: int|
                        0 <= a < b < self@.len() implies (#[trigger] self@[a]).digest
                        != (#[trigger] self@[b]).digest by {
                        assert(self@[a] == s0[a + 1] && self@[b] == s0[b + 1]);
                    }
                }
                let entry = match sl.entry {
                    Option::Some(e) => e,
                    Option::None => {
                        proof {
                            assert(false);
                        }
                        QueueEntry {
                            id: 0,
                            level: 0,
                            payload: Option::None,
                            persistent_ref: Option::None,
                        }
                    },
                };
                Option::Some((id, sl.digest, entry))
            },
            Option::None => {
                proof {
                    assert(false);
                }
                Option::None
            },
        }
    }
}

} // verus!
