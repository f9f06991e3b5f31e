//! The hash index: a serialized actor that records, for each known digest,
//! whether its content is reserved or durable, its level in the hash tree,
//! an opaque payload and an opaque blob reference.
//!
//! The index owns a mirror of the durable store's rows together with the
//! pending queue, the id counter, the callback registry and the flush timer.
//! Every message handler returns its reply together with the ordered side
//! effects — row inserts, database commits, callback invocations — that the
//! embedding program must perform against the real database, in order.
//!
//! `committed_rows` marks how much of `rows` the database has durably
//! committed: rows behind it survive a crash, rows past it sit in the open
//! write transaction until the next `CommitDb` effect is executed.

use vstd::prelude::*;

use crate::bytes::{bytes_eq, clone_bytes, opt_bytes_view};
use crate::callbacks::{
    allowed_of, fired_of, from_flushable, groups_have_digest, group_index_of, groups_unique,
    kept_of, lemma_fired_of, lemma_kept_of, CallbackRegistry, GroupV,
};
use crate::counter::CumulativeCounter;
use crate::queue::{
    slot_index_of_digest, slot_index_of_id, slots_have_digest, slots_have_id, slots_wf,
    QueueEntry, QueueEntryV, SlotV, UniquePriorityQueue,
};
use crate::timer::FlushTimer;

verus! {

/// The digest that the cryptographic hash assigns to a byte string.
pub uninterp spec fn sha512_of(input: Seq<u8>) -> Seq<u8>;

/// A wrapper around a digest: a non-empty, fixed-width byte string.
pub struct Hash {
    pub bytes: Vec<u8>,
}

impl View for Hash {
    type V = Seq<u8>;

    open spec fn view(&self) -> Seq<u8> {
        self.bytes@
    }
}

/// Relies on sodiumoxide's `crypto::hash::sha512::hash`: the 64-byte SHA-512
/// digest, a pure function of the input bytes.
#[verifier::external_body]
fn sha512_digest(text: &[u8]) -> (r: Vec<u8>)
    ensures
        r@ == sha512_of(text@),
        r@.len() == 64,
{
    let digest = sodiumoxide::crypto::hash::sha512::hash(text);
    digest.0.to_vec()
}

impl Hash {
    /// Computes the digest of `text` and wraps it.
    pub fn new(text: &[u8]) -> (h: Hash)
        ensures
            h@ == sha512_of(text@),
            h@.len() == 64,
    {
        Hash { bytes: sha512_digest(text) }
    }

    /// A copy of this digest, equal to the original.
    pub fn duplicate(&self) -> (h: Hash)
        ensures
            h@ == self@,
    {
        Hash { bytes: clone_bytes(&self.bytes) }
    }
}

/// Abstract value of a caller-supplied entry.
pub ghost struct HashEntryV {
    pub hash: Seq<u8>,
    pub level: int,
    pub payload: Option<Seq<u8>>,
    pub persistent_ref: Option<Seq<u8>>,
}

/// An entry that can be registered in the index: a digest, its level in the
/// hash tree (0 for leaves), an optional payload and an optional reference
/// into the external blob store.
pub struct HashEntry {
    pub hash: Hash,
    pub level: i64,
    pub payload: Option<Vec<u8>>,
    pub persistent_ref: Option<Vec<u8>>,
}

impl View for HashEntry {
    type V = HashEntryV;

    open spec fn view(&self) -> HashEntryV {
        HashEntryV {
            hash: self.hash@,
            level: self.level as int,
            payload: opt_bytes_view(self.payload),
            persistent_ref: opt_bytes_view(self.persistent_ref),
        }
    }
}

/// Abstract value of a durable row.
pub ghost struct RowV {
    pub id: int,
    pub hash: Seq<u8>,
    pub height: int,
    pub payload: Seq<u8>,
    pub blob_ref: Seq<u8>,
}

/// One row of the durable store: reservation id, digest, level, payload
/// (empty means absent) and blob reference.
pub struct Row {
    pub id: i64,
    pub hash: Vec<u8>,
    pub height: i64,
    pub payload: Vec<u8>,
    pub blob_ref: Vec<u8>,
}

impl View for Row {
    type V = RowV;

    open spec fn view(&self) -> RowV {
        RowV {
            id: self.id as int,
            hash: self.hash@,
            height: self.height as int,
            payload: self.payload@,
            blob_ref: self.blob_ref@,
        }
    }
}

impl Row {
    /// A copy of this row, equal to the original.
    pub fn duplicate(&self) -> (r: Row)
        ensures
            r@ == self@,
    {
        Row {
            id: self.id,
            hash: clone_bytes(&self.hash),
            height: self.height,
            payload: clone_bytes(&self.payload),
            blob_ref: clone_bytes(&self.blob_ref),
        }
    }
}

/// The abstract value of a sequence of rows.
pub open spec fn rows_seq_view(rs: Seq<Row>) -> Seq<RowV> {
    rs.map_values(|r: Row| r@)
}

/// Row ids strictly increase in insertion order.
pub open spec fn rows_sorted(rs: Seq<RowV>) -> bool {
    forall|i: int, j: int| 0 <= i < j < rs.len() ==> (#[trigger] rs[i]).id < (#[trigger] rs[j]).id
}

/// A well-formed durable store: ascending ids, unique non-empty hashes, and
/// a non-empty blob reference in every row — a durable entry always names a
/// finalized blob.
pub open spec fn rows_wf(rs: Seq<RowV>) -> bool {
    &&& rows_sorted(rs)
    &&& forall|i: int, j: int|
        0 <= i < j < rs.len() ==> (#[trigger] rs[i]).hash != (#[trigger] rs[j]).hash
    &&& forall|i: int| 0 <= i < rs.len() ==> (#[trigger] rs[i]).hash.len() > 0
    &&& forall|i: int| 0 <= i < rs.len() ==> (#[trigger] rs[i]).blob_ref.len() > 0
}

/// Some row carries the hash `d`.
pub open spec fn rows_have_hash(rs: Seq<RowV>, d: Seq<u8>) -> bool {
    exists|i: int| 0 <= i < rs.len() && (#[trigger] rs[i]).hash == d
}

/// The index of the row with hash `d` (unique when well formed).
pub open spec fn row_index_of(rs: Seq<RowV>, d: Seq<u8>) -> int {
    choose|i: int| 0 <= i < rs.len() && (#[trigger] rs[i]).hash == d
}

/// A request to the index. Each produces exactly one reply.
pub enum Msg<C> {
    /// Is this digest known (reserved or durable)?
    HashExists(Hash),
    /// Fetch the local payload stored for this digest.
    FetchPayload(Hash),
    /// Fetch the external blob reference for this digest.
    FetchPersistentRef(Hash),
    /// Reserve a digest while its content is sent to external storage.
    Reserve(HashEntry),
    /// Update a reserved digest in place; its reservation id is kept.
    UpdateReserved(HashEntry),
    /// Mark a reserved digest finalized at the given blob reference.
    Commit(Hash, Vec<u8>),
    /// Run the continuation once the digest is durably committed.
    CallAfterHashIsComitted(Hash, C),
    /// Commit the database and release eligible continuations.
    Flush,
}

/// The reply to a request.
pub enum Reply {
    HashKnown,
    HashNotKnown,
    Entry(HashEntry),
    Payload(Option<Vec<u8>>),
    PersistentRef(Vec<u8>),
    ReserveOK,
    CommitOK,
    CallbackRegistered,
    Retry,
}

/// Abstract value of a side effect.
pub ghost enum EffectV<C> {
    InsertRow(RowV),
    CommitDb,
    RunCallback(C),
}

/// A side effect the embedding program must perform, in order: insert a row
/// into the durable store's open transaction, durably commit the database
/// and open a new transaction, or invoke a released continuation.
pub enum Effect<C> {
    InsertRow(Row),
    CommitDb,
    RunCallback(C),
}

impl<C> View for Effect<C> {
    type V = EffectV<C>;

    open spec fn view(&self) -> EffectV<C> {
        match self {
            Effect::InsertRow(r) => EffectV::InsertRow(r@),
            Effect::CommitDb => EffectV::CommitDb,
            Effect::RunCallback(c) => EffectV::RunCallback(*c),
        }
    }
}

/// The abstract value of a sequence of effects.
pub open spec fn effects_view<C>(es: Seq<Effect<C>>) -> Seq<EffectV<C>> {
    es.map_values(|e: Effect<C>| e@)
}

/// Continuations as `RunCallback` effects, in order.
pub open spec fn rc_effects<C>(cs: Seq<C>) -> Seq<EffectV<C>> {
    cs.map_values(|c: C| EffectV::<C>::RunCallback(c))
}

/// Rows as `InsertRow` effects, in order.
pub open spec fn ir_effects<C>(rs: Seq<RowV>) -> Seq<EffectV<C>> {
    rs.map_values(|r: RowV| EffectV::<C>::InsertRow(r))
}

/// What a lookup finds for a digest, wherever it lives.
pub ghost struct Located {
    pub id: int,
    pub level: int,
    pub payload: Option<Seq<u8>>,
    pub persistent_ref: Option<Seq<u8>>,
}

/// The entry attached to a slot (meaningful when one is attached).
pub open spec fn entry_of(sl: SlotV) -> QueueEntryV {
    match sl.entry {
        Option::Some(e) => e,
        Option::None => QueueEntryV {
            id: sl.id,
            level: 0,
            payload: Option::None,
            persistent_ref: Option::None,
        },
    }
}

/// A ready slot always carries a non-empty blob reference: what drains into
/// the durable store names a finalized blob.
pub open spec fn ready_ref_ok(sl: SlotV) -> bool {
    sl.ready ==> match entry_of(sl).persistent_ref {
        Option::Some(b) => b.len() > 0,
        Option::None => false,
    }
}

/// The local, crash-safe metadata layer of a content-addressed store.
#[verifier::ext_equal]
pub struct HashIndex<C> {
    /// Mirror of the durable store's rows, in insertion (= id) order.
    pub rows: Vec<Row>,
    /// How many of `rows` the database has durably committed.
    pub committed_rows: usize,
    /// Issues reservation ids; never reissues one.
    pub id_counter: CumulativeCounter,
    /// Reserved-but-not-yet-durable entries.
    pub queue: UniquePriorityQueue,
    /// Continuations waiting for durability.
    pub callbacks: CallbackRegistry<C>,
    /// Decides when `maybe_flush` commits the database.
    pub flush_timer: FlushTimer,
}

impl<C> HashIndex<C> {
    /// The abstract value of the durable mirror.
    pub open spec fn rows_view(self) -> Seq<RowV> {
        rows_seq_view(self.rows@)
    }

    /// The digest is reserved or durable.
    pub open spec fn known(self, d: Seq<u8>) -> bool {
        slots_have_digest(self.queue@, d) || rows_have_hash(self.rows_view(), d)
    }

    /// What a lookup of `d` observes: the pending queue first, then the
    /// durable store, whose empty payload reads back as absent and whose
    /// blob reference is always present.
    pub open spec fn spec_locate(self, d: Seq<u8>) -> Option<Located> {
        if slots_have_digest(self.queue@, d) {
            let e = entry_of(self.queue@[slot_index_of_digest(self.queue@, d)]);
            Option::Some(
                Located {
                    id: e.id,
                    level: e.level,
                    payload: e.payload,
                    persistent_ref: e.persistent_ref,
                },
            )
        } else if rows_have_hash(self.rows_view(), d) {
            let r = self.rows_view()[row_index_of(self.rows_view(), d)];
            Option::Some(
                Located {
                    id: r.id,
                    level: r.height,
                    payload: if r.payload.len() == 0 {
                        Option::None
                    } else {
                        Option::Some(r.payload)
                    },
                    persistent_ref: Option::Some(r.blob_ref),
                },
            )
        } else {
            Option::None
        }
    }

    /// The internal invariant: a digest lives in at most one of the queue
    /// and the durable store; ids ascend from rows into the queue and never
    /// exceed the counter; a ready entry carries a non-empty blob
    /// reference; a flushable
    /// callback group's digest is durable-bound, a non-flushable one's is
    /// still pending.
    pub open spec fn inv(self) -> bool {
        &&& rows_wf(self.rows_view())
        &&& slots_wf(self.queue@)
        &&& self.committed_rows <= self.rows@.len()
        &&& forall|i: int| 0 <= i < self.queue@.len() ==> (#[trigger] self.queue@[i]).entry is Some
        &&& forall|i: int| 0 <= i < self.queue@.len() ==> ready_ref_ok(#[trigger] self.queue@[i])
        &&& forall|i: int|
            0 <= i < self.queue@.len() ==> !rows_have_hash(
                self.rows_view(),
                (#[trigger] self.queue@[i]).digest,
            )
        &&& forall|i: int, j: int|
            0 <= i < self.rows_view().len() && 0 <= j < self.queue@.len() ==> (
            #[trigger] self.rows_view()[i]).id < (#[trigger] self.queue@[j]).id
        &&& forall|i: int|
            0 <= i < self.rows_view().len() ==> (#[trigger] self.rows_view()[i]).id
                <= self.id_counter.value
        &&& forall|j: int|
            0 <= j < self.queue@.len() ==> (#[trigger] self.queue@[j]).id <= self.id_counter.value
        &&& groups_unique(self.callbacks@)
        &&& forall|g: int|
            0 <= g < self.callbacks@.len() ==> ((#[trigger] self.callbacks@[g]).flushable
                ==> rows_have_hash(self.rows_view(), self.callbacks@[g].digest))
        &&& forall|g: int|
            0 <= g < self.callbacks@.len() ==> (!(#[trigger] self.callbacks@[g]).flushable
                ==> slots_have_digest(self.queue@, self.callbacks@[g].digest))
    }

    /// Builds an index over the rows read from the durable store at `path`
    /// opening time. The id counter resumes from the largest stored id, the
    /// queue and the registry start empty, and every given row counts as
    /// durably committed.
    pub fn new(rows: Vec<Row>, flush_interval_ms: u64, now: u64) -> (hi: HashIndex<C>)
        requires
            rows_wf(rows_seq_view(rows@)),
            forall|i: int| 0 <= i < rows@.len() ==> (#[trigger] rows@[i]).id < i64::MAX,
        ensures
            hi.inv(),
            hi.rows == rows,
            hi.committed_rows == rows@.len(),
            hi.queue@ == Seq::<SlotV>::empty(),
            hi.callbacks@ == Seq::<GroupV<C>>::empty(),
            hi.id_counter.value as int == (if rows@.len() == 0 {
                0int
            } else {
                rows_seq_view(rows@).last().id
            }),
            hi.flush_timer == (FlushTimer { interval_ms: flush_interval_ms, last_fire: now }),
    {
        let n = rows.len();
        let max_id: i64 = if n == 0 {
            0
        } else {
            rows[n - 1].id
        };
        let committed_rows = n;
        let hi = HashIndex {
            rows,
            committed_rows,
            id_counter: CumulativeCounter::new(max_id),
            queue: UniquePriorityQueue::new(),
            callbacks: CallbackRegistry::new(),
            flush_timer: FlushTimer::new(flush_interval_ms, now),
        };
        proof {
            let rv = hi.rows_view();
            assert forall|i: int| 0 <= i < rv.len() implies (#[trigger] rv[i]).id
                <= hi.id_counter.value by {
                if i < rv.len() - 1 {
                    assert(rv[i].id < rv[rv.len() - 1].id);
                }
            }
        }
        hi
    }

    /// An index for tests: empty store, ten-second flush interval.
    pub fn new_for_testing() -> (hi: HashIndex<C>)
        ensures
            hi.inv(),
            hi.rows@ == Seq::<Row>::empty(),
            hi.committed_rows == 0,
            hi.queue@ == Seq::<SlotV>::empty(),
            hi.callbacks@ == Seq::<GroupV<C>>::empty(),
            hi.id_counter.value == 0,
            hi.flush_timer == (FlushTimer { interval_ms: 10000, last_fire: 0 }),
    {
        let rows: Vec<Row> = Vec::new();
        proof {
            assert(rows_seq_view(rows@) =~= Seq::<RowV>::empty());
        }
        HashIndex::new(rows, 10000, 0)
    }

    /// Issues the next reservation id: strictly above every id ever issued.
    pub fn next_id(&mut self) -> (id: i64)
        requires
            old(self).inv(),
            old(self).id_counter.value < i64::MAX,
        ensures
            final(self).inv(),
            id == old(self).id_counter.value + 1,
            final(self).id_counter.value == id,
            final(self).rows == old(self).rows,
            final(self).committed_rows == old(self).committed_rows,
            final(self).queue == old(self).queue,
            final(self).callbacks == old(self).callbacks,
            final(self).flush_timer == old(self).flush_timer,
    {
        self.id_counter.next()
    }

    /// Looks a digest up, pending queue first, then the durable mirror.
    fn locate(&self, hash: &Hash) -> (r: Option<QueueEntry>)
        requires
            self.inv(),
            hash@.len() > 0,
        ensures
            match r {
                Option::Some(qe) => self.spec_locate(hash@) == Option::Some(
                    Located {
                        id: qe@.id,
                        level: qe@.level,
                        payload: qe@.payload,
                        persistent_ref: qe@.persistent_ref,
                    },
                ),
                Option::None => self.spec_locate(hash@) is None && !self.known(hash@),
            },
    {
        match self.queue.find_entry(&hash.bytes) {
            Option::Some(qe) => {
                return Option::Some(qe);
            },
            Option::None => {},
        }
        proof {
            assert(!slots_have_digest(self.queue@, hash@));
        }
        let ghost rv = self.rows_view();
        let n = self.rows.len();
        let mut i: usize = 0;
        while i < n
            invariant
                self.inv(),
                rv == self.rows_view(),
                n == self.rows@.len(),
                i <= n,
                forall|j: int| 0 <= j < i ==> (#[trigger] rv[j]).hash != hash@,
            decreases n - i,
        {
            if bytes_eq(&self.rows[i].hash, &hash.bytes) {
                proof {
                    assert(rv[i as int].hash == hash@);
                    assert(rows_have_hash(rv, hash@));
                    let idx = row_index_of(rv, hash@);
                    assert(0 <= idx < rv.len() && rv[idx].hash == hash@);
                    if idx != i as int {
                        assert(rv[idx].hash != rv[i as int].hash);
                    }
                }
                let row = &self.rows[i];
                let payload: Option<Vec<u8>> = if row.payload.len() == 0 {
                    Option::None
                } else {
                    Option::Some(clone_bytes(&row.payload))
                };
                let qe = QueueEntry {
                    id: row.id,
                    level: row.height,
                    payload,
                    persistent_ref: Option::Some(clone_bytes(&row.blob_ref)),
                };
                return Option::Some(qe);
            }
            i += 1;
        }
        proof {
            assert(!rows_have_hash(rv, hash@));
        }
        Option::None
    }

    /// Commits the database and releases every eligible continuation: the
    /// first effect is the durable commit, then the released continuations
    /// in order — so a continuation always observes a durable database.
    pub fn flush(&mut self) -> (effects: Vec<Effect<C>>)
        requires
            old(self).inv(),
        ensures
            final(self).inv(),
            flush_post(*old(self), *final(self), effects_view(effects@)),
    {
        let ghost gs0 = self.callbacks@;
        let mut fired = self.callbacks.flush_all();
        self.committed_rows = self.rows.len();
        let ghost fired0 = fired@;
        let mut effects: Vec<Effect<C>> = Vec::new();
        effects.push(Effect::CommitDb);
        proof {
            assert(effects_view(effects@) =~= seq![EffectV::<C>::CommitDb] + rc_effects(
                fired0.subrange(0, 0),
            )) by {
                assert(rc_effects::<C>(fired0.subrange(0, 0)) =~= Seq::<EffectV<C>>::empty());
            }
            assert(fired@ == fired0.subrange(0, fired0.len() as int));
        }
        while fired.len() > 0
            invariant
                fired0.len() >= fired@.len(),
                fired@ == fired0.subrange(
                    fired0.len() - fired@.len(),
                    fired0.len() as int,
                ),
                effects_view(effects@) == seq![EffectV::<C>::CommitDb] + rc_effects(
                    fired0.subrange(0, fired0.len() - fired@.len()),
                ),
            decreases fired@.len(),
        {
            let ghost k = fired0.len() - fired@.len();
            let ghost fpre = fired@;
            let ghost epre = effects@;
            let c = fired.remove(0);
            effects.push(Effect::RunCallback(c));
            proof {
                assert(c == fpre[0]);
                assert(fpre[0] == fired0[k]);
                assert(fired@ =~= fired0.subrange(k + 1, fired0.len() as int)) by {
                    assert(fired@ =~= fpre.subrange(1, fpre.len() as int));
                }
                assert(effects_view(effects@) =~= seq![EffectV::<C>::CommitDb] + rc_effects(
                    fired0.subrange(0, k + 1),
                )) by {
                    assert(effects_view(effects@) =~= effects_view(epre).push(
                        EffectV::<C>::RunCallback(c),
                    ));
                    assert(rc_effects::<C>(fired0.subrange(0, k + 1)) =~= rc_effects::<C>(
                        fired0.subrange(0, k),
                    ).push(EffectV::<C>::RunCallback(fired0[k])));
                }
            }
        }
        proof {
            assert(fired0.subrange(0, fired0.len() as int) =~= fired0);
            assert(effects_view(effects@) == seq![EffectV::<C>::CommitDb] + rc_effects(fired0));
            lemma_kept_of(gs0);
            assert forall|g: int|
                0 <= g < self.callbacks@.len() implies ((#[trigger] self.callbacks@[g]).flushable
                ==> rows_have_hash(self.rows_view(), self.callbacks@[g].digest)) && (!(
            #[trigger] self.callbacks@[g]).flushable ==> slots_have_digest(
                self.queue@,
                self.callbacks@[g].digest,
            )) by {
                assert(!self.callbacks@[g].flushable);
                let j = choose|j: int| 0 <= j < gs0.len() && #[trigger] kept_of(gs0)[g] == gs0[j];
                assert(!gs0[j].flushable);
                assert(slots_have_digest(self.queue@, gs0[j].digest));
            }
        }
        effects
    }

    /// Flushes when the timer's interval has elapsed at `now`; otherwise
    /// leaves the index untouched.
    pub fn maybe_flush(&mut self, now: u64) -> (effects: Vec<Effect<C>>)
        requires
            old(self).inv(),
        ensures
            final(self).inv(),
            maybe_flush_post(*old(self), *final(self), effects_view(effects@), now),
    {
        let fired = self.flush_timer.did_fire(now);
        if fired {
            let effects = self.flush();
            proof {
                assert(self.flush_timer =~= FlushTimer {
                    interval_ms: old(self).flush_timer.interval_ms,
                    last_fire: now,
                });
            }
            effects
        } else {
            let effects: Vec<Effect<C>> = Vec::new();
            proof {
                assert(*self =~= *old(self));
                assert(effects_view(effects@) =~= Seq::<EffectV<C>>::empty());
            }
            effects
        }
    }

    /// Drains every consecutive ready minimum of the queue into the durable
    /// mirror, in ascending id order, marking each drained digest's callback
    /// group flushable; returns the matching `InsertRow` effects, in order.
    pub fn insert_completed_in_order(&mut self) -> (effects: Vec<Effect<C>>)
        requires
            old(self).inv(),
        ensures
            final(self).inv(),
            ({
                let dr = drain_spec(old(self).queue@, old(self).rows_view(), old(self).callbacks@);
                &&& final(self).queue@ == dr.queue
                &&& final(self).rows_view() == dr.rows
                &&& final(self).callbacks@ == dr.callbacks
                &&& effects_view(effects@) == ir_effects::<C>(dr.inserted)
                &&& final(self).id_counter == old(self).id_counter
                &&& final(self).flush_timer == old(self).flush_timer
                &&& final(self).committed_rows == old(self).committed_rows
            }),
    {
        let ghost target = drain_spec(old(self).queue@, old(self).rows_view(), old(self).callbacks@);
        let mut effects: Vec<Effect<C>> = Vec::new();
        proof {
            assert(effects_view(effects@) =~= Seq::<EffectV<C>>::empty());
            assert(Seq::<EffectV<C>>::empty() + ir_effects::<C>(target.inserted) =~= ir_effects::<
                C,
            >(target.inserted));
        }
        loop
            invariant
                self.inv(),
                self.id_counter == old(self).id_counter,
                self.flush_timer == old(self).flush_timer,
                self.committed_rows == old(self).committed_rows,
                target == drain_spec(old(self).queue@, old(self).rows_view(), old(self).callbacks@),
                drain_spec(self.queue@, self.rows_view(), self.callbacks@).queue == target.queue,
                drain_spec(self.queue@, self.rows_view(), self.callbacks@).rows == target.rows,
                drain_spec(self.queue@, self.rows_view(), self.callbacks@).callbacks
                    == target.callbacks,
                effects_view(effects@) + ir_effects::<C>(
                    drain_spec(self.queue@, self.rows_view(), self.callbacks@).inserted,
                ) == ir_effects::<C>(target.inserted),
            ensures
                self.inv(),
                self.id_counter == old(self).id_counter,
                self.flush_timer == old(self).flush_timer,
                self.committed_rows == old(self).committed_rows,
                self.queue@ == target.queue,
                self.rows_view() == target.rows,
                self.callbacks@ == target.callbacks,
                effects_view(effects@) == ir_effects::<C>(target.inserted),
            decreases self.queue@.len(),
        {
            let ghost q0 = self.queue@;
            let ghost r0 = self.rows_view();
            let ghost c0 = self.callbacks@;
            match self.queue.pop_min_if_ready() {
                Option::None => {
                    proof {
                        assert(drain_spec(q0, r0, c0).queue == q0);
                        assert(drain_spec(q0, r0, c0).rows == r0);
                        assert(drain_spec(q0, r0, c0).callbacks == c0);
                        assert(drain_spec(q0, r0, c0).inserted == Seq::<RowV>::empty());
                        assert(effects_view(effects@) + ir_effects::<C>(Seq::<RowV>::empty())
                            =~= effects_view(effects@)) by {
                            assert(ir_effects::<C>(Seq::<RowV>::empty()) =~= Seq::<
                                EffectV<C>,
                            >::empty());
                        }
                    }
                    break ;
                },
                Option::Some((id, digest, entry)) => {
                    proof {
                        assert(q0.len() > 0 && q0[0].ready);
                        assert(Option::Some(entry@) == q0[0].entry);
                        assert(entry_of(q0[0]) == entry@);
                        assert(ready_ref_ok(q0[0]));
                        assert(entry_of(q0[0]).persistent_ref is Some);
                    }
                    self.callbacks.allow_flush(&digest);
                    let payload: Vec<u8> = match entry.payload {
                        Option::Some(p) => p,
                        Option::None => Vec::new(),
                    };
                    let blob_ref: Vec<u8> = match entry.persistent_ref {
                        Option::Some(b) => b,
                        Option::None => {
                            proof {
                                assert(false);
                            }
                            Vec::new()
                        },
                    };
                    let row = Row { id, hash: digest, height: entry.level, payload, blob_ref };
                    proof {
                        assert(row@ == row_of_slot(q0[0]));
                    }
                    let row_copy = row.duplicate();
                    self.rows.push(row_copy);
                    let ghost epre = effects@;
                    effects.push(Effect::InsertRow(row));
                    proof {
                        let rowv = row_of_slot(q0[0]);
                        assert(self.queue@ == q0.drop_first());
                        assert(self.rows_view() =~= r0.push(rowv));
                        assert(self.callbacks@ == allowed_of(c0, q0[0].digest));
                        // one unfolding of the drain
                        assert(drain_spec(q0, r0, c0).queue == drain_spec(
                            self.queue@,
                            self.rows_view(),
                            self.callbacks@,
                        ).queue);
                        assert(drain_spec(q0, r0, c0).inserted == seq![rowv] + drain_spec(
                            self.queue@,
                            self.rows_view(),
                            self.callbacks@,
                        ).inserted);
                        assert(effects_view(effects@) =~= effects_view(epre).push(
                            EffectV::<C>::InsertRow(rowv),
                        ));
                        assert(effects_view(effects@) + ir_effects::<C>(
                            drain_spec(self.queue@, self.rows_view(), self.callbacks@).inserted,
                        ) =~= effects_view(epre) + ir_effects::<C>(drain_spec(q0, r0, c0).inserted))
                            by {
                            assert(ir_effects::<C>(drain_spec(q0, r0, c0).inserted)
                                =~= seq![EffectV::<C>::InsertRow(rowv)] + ir_effects::<C>(
                                drain_spec(self.queue@, self.rows_view(), self.callbacks@).inserted,
                            ));
                        }
                        self.lemma_drain_step_inv(q0, r0, c0, rowv);
                    }
                },
            }
        }
        effects
    }

    /// One drain step preserves the invariant: the popped minimum becomes a
    /// row whose id extends the store's ascending order, digests stay in at
    /// most one place, and the drained digest's group may turn flushable.
    proof fn lemma_drain_step_inv(
        self,
        q0: Seq<SlotV>,
        r0: Seq<RowV>,
        c0: Seq<GroupV<C>>,
        rowv: RowV,
    )
        requires
            q0.len() > 0,
            q0[0].ready,
            rowv == row_of_slot(q0[0]),
            slots_wf(q0),
            rows_wf(r0),
            forall|i: int| 0 <= i < q0.len() ==> (#[trigger] q0[i]).entry is Some,
            forall|i: int| 0 <= i < q0.len() ==> ready_ref_ok(#[trigger] q0[i]),
            forall|i: int| 0 <= i < q0.len() ==> !rows_have_hash(r0, (#[trigger] q0[i]).digest),
            forall|i: int, j: int|
                0 <= i < r0.len() && 0 <= j < q0.len() ==> (#[trigger] r0[i]).id < (
                #[trigger] q0[j]).id,
            forall|i: int| 0 <= i < r0.len() ==> (#[trigger] r0[i]).id <= self.id_counter.value,
            forall|j: int| 0 <= j < q0.len() ==> (#[trigger] q0[j]).id <= self.id_counter.value,
            groups_unique(c0),
            forall|g: int|
                0 <= g < c0.len() ==> ((#[trigger] c0[g]).flushable ==> rows_have_hash(
                    r0,
                    c0[g].digest,
                )),
            forall|g: int|
                0 <= g < c0.len() ==> (!(#[trigger] c0[g]).flushable ==> slots_have_digest(
                    q0,
                    c0[g].digest,
                )),
            self.committed_rows <= r0.len(),
            self.queue@ == q0.drop_first(),
            self.rows_view() == r0.push(rowv),
            self.callbacks@ == allowed_of(c0, q0[0].digest),
        ensures
            self.inv(),
    {
        let q1 = self.queue@;
        let r1 = self.rows_view();
        let c1 = self.callbacks@;
        assert forall|i: int, j: int|
            0 <= i < j < q1.len() implies (#[trigger] q1[i]).id < (#[trigger] q1[j]).id by {
            assert(q1[i] == q0[i + 1] && q1[j] == q0[j + 1]);
        }
        assert forall|i: int, j: int|
            0 <= i < j < q1.len() implies (#[trigger] q1[i]).digest != (#[trigger] q1[j]).digest by {
            assert(q1[i] == q0[i + 1] && q1[j] == q0[j + 1]);
        }
        assert forall|i: int| 0 <= i < q1.len() implies (#[trigger] q1[i]).digest.len() > 0 by {
            assert(q1[i] == q0[i + 1]);
        }
        assert forall|i: int| 0 <= i < q1.len() implies match (#[trigger] q1[i]).entry {
            Option::Some(e) => e.id == q1[i].id,
            Option::None => !q1[i].ready,
        } by {
            assert(q1[i] == q0[i + 1]);
            assert(match q0[i + 1].entry {
                Option::Some(e) => e.id == q0[i + 1].id,
                Option::None => !q0[i + 1].ready,
            });
        }
        assert(slots_wf(q1));
        // the new row extends the ascending id order and is a fresh hash
        assert(rowv.id == q0[0].id && rowv.hash == q0[0].digest);
        assert forall|i: int, j: int|
            0 <= i < j < r1.len() implies (#[trigger] r1[i]).id < (#[trigger] r1[j]).id by {
            if j < r0.len() {
                assert(r1[i] == r0[i] && r1[j] == r0[j]);
            } else {
                assert(r1[i] == r0[i] && r1[j] == rowv);
            }
        }
        assert forall|i: int, j: int|
            0 <= i < j < r1.len() implies (#[trigger] r1[i]).hash != (#[trigger] r1[j]).hash by {
            if j < r0.len() {
                assert(r1[i] == r0[i] && r1[j] == r0[j]);
            } else {
                assert(r1[i] == r0[i] && r1[j] == rowv);
                assert(!rows_have_hash(r0, q0[0].digest));
            }
        }
        assert forall|i: int| 0 <= i < r1.len() implies (#[trigger] r1[i]).hash.len() > 0 by {
            if i < r0.len() {
                assert(r1[i] == r0[i]);
            } else {
                assert(r1[i] == rowv);
            }
        }
        assert forall|i: int| 0 <= i < r1.len() implies (#[trigger] r1[i]).blob_ref.len() > 0 by {
            if i < r0.len() {
                assert(r1[i] == r0[i]);
            } else {
                assert(r1[i] == rowv);
                assert(ready_ref_ok(q0[0]));
            }
        }
        assert(rows_wf(r1));
        assert forall|i: int| 0 <= i < q1.len() implies !rows_have_hash(
            r1,
            (#[trigger] q1[i]).digest,
        ) by {
            assert(q1[i] == q0[i + 1]);
            assert(!rows_have_hash(r0, q0[i + 1].digest));
            assert(q0[i + 1].digest != q0[0].digest);
            if rows_have_hash(r1, q1[i].digest) {
                let k = row_index_of(r1, q1[i].digest);
                assert(0 <= k < r1.len() && r1[k].hash == q1[i].digest);
                if k < r0.len() {
                    assert(r0[k].hash == q1[i].digest);
                    assert(rows_have_hash(r0, q0[i + 1].digest));
                } else {
                    assert(r1[k] == rowv);
                }
            }
        }
        assert forall|i: int, j: int|
            0 <= i < r1.len() && 0 <= j < q1.len() implies (#[trigger] r1[i]).id < (
            #[trigger] q1[j]).id by {
            assert(q1[j] == q0[j + 1]);
            if i < r0.len() {
                assert(r1[i] == r0[i]);
            } else {
                assert(r1[i] == rowv);
                assert(q0[0].id < q0[j + 1].id);
            }
        }
        assert forall|i: int| 0 <= i < r1.len() implies (#[trigger] r1[i]).id
            <= self.id_counter.value by {
            if i < r0.len() {
                assert(r1[i] == r0[i]);
            } else {
                assert(r1[i] == rowv);
                assert(q0[0].id <= self.id_counter.value);
            }
        }
        assert forall|j: int| 0 <= j < q1.len() implies (#[trigger] q1[j]).id
            <= self.id_counter.value by {
            assert(q1[j] == q0[j + 1]);
        }
        // the registry: only the drained digest's group may change, and it
        // turns flushable with its row just written
        assert(groups_unique(c1)) by {
            if groups_have_digest(c0, q0[0].digest) {
                let gi = group_index_of(c0, q0[0].digest);
                assert(c1 == c0.update(
                    gi,
                    GroupV {
                        digest: c0[gi].digest,
                        callbacks: c0[gi].callbacks,
                        flushable: true,
                    },
                ));
                assert forall|a: int, b: int|
                    0 <= a < b < c1.len() implies (#[trigger] c1[a]).digest != (
                #[trigger] c1[b]).digest by {
                    assert(c1[a].digest == c0[a].digest);
                    assert(c1[b].digest == c0[b].digest);
                }
            }
        }
        assert forall|g: int|
            0 <= g < c1.len() implies ((#[trigger] c1[g]).flushable ==> rows_have_hash(
            r1,
            c1[g].digest,
        )) && (!(#[trigger] c1[g]).flushable ==> slots_have_digest(q1, c1[g].digest)) by {
            if groups_have_digest(c0, q0[0].digest) {
                let gi = group_index_of(c0, q0[0].digest);
                assert(0 <= gi < c0.len() && c0[gi].digest == q0[0].digest);
                if g == gi {
                    assert(c1[g].digest == q0[0].digest);
                    assert(r1[r0.len() as int] == rowv);
                    assert(rows_have_hash(r1, c1[g].digest));
                } else {
                    assert(c1[g] == c0[g]);
                    if c0[g].flushable {
                        assert(rows_have_hash(r0, c0[g].digest));
                        let k = row_index_of(r0, c0[g].digest);
                        assert(r1[k] == r0[k]);
                        assert(rows_have_hash(r1, c0[g].digest));
                    } else {
                        assert(slots_have_digest(q0, c0[g].digest));
                        let k = slot_index_of_digest(q0, c0[g].digest);
                        assert(0 <= k < q0.len() && q0[k].digest == c0[g].digest);
                        if k == 0 {
                            assert(c0[g].digest == q0[0].digest);
                            assert(c0[g].digest != c0[gi].digest);
                        }
                        assert(k > 0);
                        assert(q1[k - 1] == q0[k]);
                        assert(slots_have_digest(q1, c0[g].digest));
                    }
                }
            } else {
                assert(c1 == c0);
                if c0[g].flushable {
                    assert(rows_have_hash(r0, c0[g].digest));
                    let k = row_index_of(r0, c0[g].digest);
                    assert(r1[k] == r0[k]);
                    assert(rows_have_hash(r1, c0[g].digest));
                } else {
                    assert(slots_have_digest(q0, c0[g].digest));
                    let k = slot_index_of_digest(q0, c0[g].digest);
                    assert(0 <= k < q0.len() && q0[k].digest == c0[g].digest);
                    if k == 0 {
                        assert(groups_have_digest(c0, q0[0].digest));
                    }
                    assert(k > 0);
                    assert(q1[k - 1] == q0[k]);
                    assert(slots_have_digest(q1, c0[g].digest));
                }
            }
        }
        assert forall|i: int| 0 <= i < q1.len() implies (#[trigger] q1[i]).entry is Some by {
            assert(q1[i] == q0[i + 1]);
            assert(q0[i + 1].entry is Some);
        }
        assert forall|i: int| 0 <= i < q1.len() implies ready_ref_ok(#[trigger] q1[i]) by {
            assert(q1[i] == q0[i + 1]);
            assert(ready_ref_ok(q0[i + 1]));
        }
        assert(self.committed_rows <= self.rows@.len()) by {
            assert(r1.len() == r0.len() + 1);
        }
    }
}

/// The durable row a drained slot turns into: the payload collapses from
/// absent to empty, the blob reference must be present by then.
pub open spec fn row_of_slot(sl: SlotV) -> RowV {
    let e = entry_of(sl);
    RowV {
        id: sl.id,
        hash: sl.digest,
        height: e.level,
        payload: match e.payload {
            Option::Some(p) => p,
            Option::None => Seq::empty(),
        },
        blob_ref: match e.persistent_ref {
            Option::Some(b) => b,
            Option::None => Seq::empty(),
        },
    }
}

/// The outcome of a drain: the remaining queue, the grown durable store,
/// the registry with the drained digests marked flushable, and the rows
/// inserted, in order.
pub ghost struct DrainResult<C> {
    pub queue: Seq<SlotV>,
    pub rows: Seq<RowV>,
    pub callbacks: Seq<GroupV<C>>,
    pub inserted: Seq<RowV>,
}

/// Greedy in-order drain: as long as the minimum-id slot is ready, move it
/// into the durable store and mark its digest's callback group flushable.
/// It stops at the first non-ready slot, so the store's insertion order is
/// exactly the reservation order.
pub open spec fn drain_spec<C>(
    q: Seq<SlotV>,
    rows: Seq<RowV>,
    cbs: Seq<GroupV<C>>,
) -> DrainResult<C>
    decreases q.len(),
{
    if q.len() > 0 && q[0].ready {
        let row = row_of_slot(q[0]);
        let rest = drain_spec(q.drop_first(), rows.push(row), allowed_of(cbs, q[0].digest));
        DrainResult {
            queue: rest.queue,
            rows: rest.rows,
            callbacks: rest.callbacks,
            inserted: seq![row] + rest.inserted,
        }
    } else {
        DrainResult { queue: q, rows, callbacks: cbs, inserted: Seq::empty() }
    }
}

/// How a flush changes the index: everything is durable afterwards, the
/// flushable callback groups are gone, and the effects are the durable
/// commit followed by the released continuations.
pub open spec fn flush_post<C>(s0: HashIndex<C>, s1: HashIndex<C>, ev: Seq<EffectV<C>>) -> bool {
    &&& s1.rows == s0.rows
    &&& s1.queue == s0.queue
    &&& s1.id_counter == s0.id_counter
    &&& s1.flush_timer == s0.flush_timer
    &&& s1.committed_rows == s0.rows@.len()
    &&& s1.callbacks@ == kept_of(s0.callbacks@)
    &&& ev == seq![EffectV::<C>::CommitDb] + rc_effects(fired_of(s0.callbacks@))
}

/// How `maybe_flush` changes the index: a flush with the timer reset when
/// the interval has elapsed, nothing otherwise.
pub open spec fn maybe_flush_post<C>(
    s0: HashIndex<C>,
    s1: HashIndex<C>,
    ev: Seq<EffectV<C>>,
    now: u64,
) -> bool {
    if s0.flush_timer.fires_at(now) {
        &&& s1.rows == s0.rows
        &&& s1.queue == s0.queue
        &&& s1.id_counter == s0.id_counter
        &&& s1.flush_timer == (FlushTimer {
            interval_ms: s0.flush_timer.interval_ms,
            last_fire: now,
        })
        &&& s1.committed_rows == s0.rows@.len()
        &&& s1.callbacks@ == kept_of(s0.callbacks@)
        &&& ev == seq![EffectV::<C>::CommitDb] + rc_effects(fired_of(s0.callbacks@))
    } else {
        &&& s1 == s0
        &&& ev == Seq::<EffectV<C>>::empty()
    }
}

/// How `Reserve` changes the index when the digest is new: a possible timed
/// flush, then a fresh id and a new non-ready slot holding the entry.
pub open spec fn reserve_post<C>(
    s0: HashIndex<C>,
    s1: HashIndex<C>,
    ev: Seq<EffectV<C>>,
    he: HashEntryV,
    now: u64,
) -> bool {
    let fired = s0.flush_timer.fires_at(now);
    let new_id = s0.id_counter.value + 1;
    &&& s1.id_counter.value == new_id
    &&& s1.queue@ == s0.queue@.push(
        SlotV {
            id: new_id,
            digest: he.hash,
            entry: Option::Some(
                QueueEntryV {
                    id: new_id,
                    level: he.level,
                    payload: he.payload,
                    persistent_ref: he.persistent_ref,
                },
            ),
            ready: false,
        },
    )
    &&& s1.rows == s0.rows
    &&& s1.committed_rows as int == (if fired {
        s0.rows@.len() as int
    } else {
        s0.committed_rows as int
    })
    &&& s1.callbacks@ == (if fired {
        kept_of(s0.callbacks@)
    } else {
        s0.callbacks@
    })
    &&& s1.flush_timer == (if fired {
        FlushTimer { interval_ms: s0.flush_timer.interval_ms, last_fire: now }
    } else {
        s0.flush_timer
    })
    &&& ev == (if fired {
        seq![EffectV::<C>::CommitDb] + rc_effects(fired_of(s0.callbacks@))
    } else {
        Seq::<EffectV<C>>::empty()
    })
}

/// How `UpdateReserved` changes the index: in the queue, the entry's level,
/// payload and blob reference are replaced in place (id and readiness kept);
/// a digest already drained to the durable store is left untouched.
pub open spec fn update_post<C>(s0: HashIndex<C>, s1: HashIndex<C>, he: HashEntryV) -> bool {
    if slots_have_digest(s0.queue@, he.hash) {
        let idx = slot_index_of_digest(s0.queue@, he.hash);
        let sl = s0.queue@[idx];
        &&& s1.queue@ == s0.queue@.update(
            idx,
            SlotV {
                id: sl.id,
                digest: sl.digest,
                entry: Option::Some(
                    QueueEntryV {
                        id: sl.id,
                        level: he.level,
                        payload: he.payload,
                        persistent_ref: he.persistent_ref,
                    },
                ),
                ready: sl.ready,
            },
        )
        &&& s1.rows == s0.rows
        &&& s1.id_counter == s0.id_counter
        &&& s1.callbacks@ == s0.callbacks@
        &&& s1.flush_timer == s0.flush_timer
        &&& s1.committed_rows == s0.committed_rows
    } else {
        s1 == s0
    }
}

/// How `Commit` changes the index: the slot gets the final blob reference
/// and turns ready, the queue drains in order, and the timer may flush.
pub open spec fn commit_post<C>(
    s0: HashIndex<C>,
    s1: HashIndex<C>,
    ev: Seq<EffectV<C>>,
    d: Seq<u8>,
    blob: Seq<u8>,
    now: u64,
) -> bool {
    let idx = slot_index_of_digest(s0.queue@, d);
    let sl = s0.queue@[idx];
    let e = entry_of(sl);
    let q1 = s0.queue@.update(
        idx,
        SlotV {
            id: sl.id,
            digest: sl.digest,
            entry: Option::Some(
                QueueEntryV {
                    id: sl.id,
                    level: e.level,
                    payload: e.payload,
                    persistent_ref: Option::Some(blob),
                },
            ),
            ready: true,
        },
    );
    let dr = drain_spec(q1, rows_seq_view(s0.rows@), s0.callbacks@);
    let fired = s0.flush_timer.fires_at(now);
    &&& s1.queue@ == dr.queue
    &&& s1.rows_view() == dr.rows
    &&& s1.id_counter == s0.id_counter
    &&& s1.callbacks@ == (if fired {
        kept_of(dr.callbacks)
    } else {
        dr.callbacks
    })
    &&& s1.committed_rows as int == (if fired {
        dr.rows.len() as int
    } else {
        s0.committed_rows as int
    })
    &&& s1.flush_timer == (if fired {
        FlushTimer { interval_ms: s0.flush_timer.interval_ms, last_fire: now }
    } else {
        s0.flush_timer
    })
    &&& ev == ir_effects::<C>(dr.inserted) + (if fired {
        seq![EffectV::<C>::CommitDb] + rc_effects(fired_of(dr.callbacks))
    } else {
        Seq::<EffectV<C>>::empty()
    })
}

/// How registering a continuation changes the index: appended to the
/// digest's group while the digest is pending; run at once only when the
/// digest's row is already durably committed; deferred — its group marked
/// flushable, so it fires right after the next durable commit — while the
/// row still sits in the open transaction; refused when the digest is
/// unknown. A continuation therefore never observes its row undurable.
pub open spec fn register_post<C>(
    s0: HashIndex<C>,
    s1: HashIndex<C>,
    ev: Seq<EffectV<C>>,
    d: Seq<u8>,
    c: C,
    registered: bool,
) -> bool {
    if slots_have_digest(s0.queue@, d) {
        &&& registered
        &&& s1.rows == s0.rows
        &&& s1.queue == s0.queue
        &&& s1.id_counter == s0.id_counter
        &&& s1.flush_timer == s0.flush_timer
        &&& s1.committed_rows == s0.committed_rows
        &&& (if groups_have_digest(s0.callbacks@, d) {
            s1.callbacks@ == s0.callbacks@.update(
                group_index_of(s0.callbacks@, d),
                GroupV {
                    digest: d,
                    callbacks: s0.callbacks@[group_index_of(s0.callbacks@, d)].callbacks.push(c),
                    flushable: s0.callbacks@[group_index_of(s0.callbacks@, d)].flushable,
                },
            )
        } else {
            s1.callbacks@ == s0.callbacks@.push(
                GroupV { digest: d, callbacks: seq![c], flushable: false },
            )
        })
        &&& ev == Seq::<EffectV<C>>::empty()
    } else if rows_have_hash(rows_seq_view(s0.rows@), d) {
        if row_index_of(rows_seq_view(s0.rows@), d) < s0.committed_rows {
            // the digest's row is durably committed: run the continuation now
            &&& registered
            &&& s1 == s0
            &&& ev == seq![EffectV::<C>::RunCallback(c)]
        } else {
            // the digest's row still sits in the open transaction: the
            // continuation must wait for the commit that makes it durable,
            // so it joins the registry already marked flushable
            &&& registered
            &&& s1.rows == s0.rows
            &&& s1.queue == s0.queue
            &&& s1.id_counter == s0.id_counter
            &&& s1.flush_timer == s0.flush_timer
            &&& s1.committed_rows == s0.committed_rows
            &&& (if groups_have_digest(s0.callbacks@, d) {
                s1.callbacks@ == s0.callbacks@.update(
                    group_index_of(s0.callbacks@, d),
                    GroupV {
                        digest: d,
                        callbacks: s0.callbacks@[group_index_of(s0.callbacks@, d)].callbacks.push(
                            c,
                        ),
                        flushable: true,
                    },
                )
            } else {
                s1.callbacks@ == s0.callbacks@.push(
                    GroupV { digest: d, callbacks: seq![c], flushable: true },
                )
            })
            &&& ev == Seq::<EffectV<C>>::empty()
        }
    } else {
        &&& !registered
        &&& s1 == s0
        &&& ev == Seq::<EffectV<C>>::empty()
    }
}

/// Which messages an index accepts: digests are never empty, a `Commit`
/// names a digest still in the queue and a non-empty blob reference, an
/// `UpdateReserved` names a known digest — one already committed but still
/// queued only with a non-empty blob reference of its own, lest it strip
/// the reference a ready entry must carry — and a `Reserve` has an id left
/// to issue.
pub open spec fn msg_wf<C>(s: HashIndex<C>, msg: Msg<C>) -> bool {
    match msg {
        Msg::HashExists(h) => h@.len() > 0,
        Msg::FetchPayload(h) => h@.len() > 0,
        Msg::FetchPersistentRef(h) => h@.len() > 0,
        Msg::Reserve(he) => he@.hash.len() > 0 && s.id_counter.value < i64::MAX,
        Msg::UpdateReserved(he) => he@.hash.len() > 0 && s.known(he@.hash) && (slots_have_digest(
            s.queue@,
            he@.hash,
        ) ==> (s.queue@[slot_index_of_digest(s.queue@, he@.hash)].ready ==> match he@
            .persistent_ref {
            Option::Some(b) => b.len() > 0,
            Option::None => false,
        })),
        Msg::Commit(h, blob) => h@.len() > 0 && blob@.len() > 0 && slots_have_digest(
            s.queue@,
            h@,
        ),
        Msg::CallAfterHashIsComitted(h, _) => h@.len() > 0,
        Msg::Flush => true,
    }
}

impl<C> HashIndex<C> {
    /// Reserves a fresh id for a digest not yet known, so that its content
    /// is uploaded at most once. May first perform a timed flush.
    pub fn reserve(&mut self, hash_entry: HashEntry, now: u64) -> (res: (i64, Vec<Effect<C>>))
        requires
            old(self).inv(),
            hash_entry@.hash.len() > 0,
            !old(self).known(hash_entry@.hash),
            old(self).id_counter.value < i64::MAX,
        ensures
            final(self).inv(),
            reserve_post(*old(self), *final(self), effects_view(res.1@), hash_entry@, now),
            res.0 == old(self).id_counter.value + 1,
    {
        let effects = self.maybe_flush(now);
        let ghost s_mid = *self;
        let HashEntry { hash, level, payload, persistent_ref } = hash_entry;
        let my_id = self.next_id();
        let digest = clone_bytes(&hash.bytes);
        proof {
            assert(self.queue@ == old(self).queue@ && self.rows@ == old(self).rows@);
            assert forall|i: int| 0 <= i < self.queue@.len() implies (#[trigger] self.queue@[
                i
            ]).id < my_id as int by {
                assert(self.queue@[i].id <= old(self).id_counter.value);
            }
        }
        let ghost q0 = self.queue@;
        let r = self.queue.reserve_priority(my_id, hash.bytes);
        match r {
            Result::Ok(u) => {},
            Result::Err(u) => {
                proof {
                    assert(false);
                }
            },
        }
        proof {
            let qp = self.queue@;
            assert(qp == q0.push(
                SlotV { id: my_id as int, digest: digest@, entry: Option::None, ready: false },
            ));
            assert(qp[qp.len() - 1].digest == digest@);
            assert(slots_have_digest(qp, digest@));
            let idx = slot_index_of_digest(qp, digest@);
            assert(0 <= idx < qp.len() && qp[idx].digest == digest@);
            if idx < qp.len() - 1 {
                assert(qp[idx] == q0[idx]);
                assert(slots_have_digest(q0, digest@));
            }
            assert(idx == qp.len() - 1);
            assert(qp[idx].id == my_id as int);
        }
        self.queue.put_value(&digest, QueueEntry { id: my_id, level, payload, persistent_ref });
        proof {
            let he = hash_entry@;
            let full = SlotV {
                id: my_id as int,
                digest: he.hash,
                entry: Option::Some(
                    QueueEntryV {
                        id: my_id as int,
                        level: he.level,
                        payload: he.payload,
                        persistent_ref: he.persistent_ref,
                    },
                ),
                ready: false,
            };
            assert(self.queue@ =~= q0.push(full));
            // the invariant carries over to the one new, empty-handed slot
            assert forall|i: int| 0 <= i < self.queue@.len() implies (#[trigger] self.queue@[
                i
            ]).entry is Some by {
                if i < q0.len() {
                    assert(self.queue@[i] == q0[i]);
                }
            }
            assert forall|i: int| 0 <= i < self.queue@.len() implies ready_ref_ok(
                #[trigger] self.queue@[i],
            ) by {
                if i < q0.len() {
                    assert(self.queue@[i] == q0[i]);
                    assert(ready_ref_ok(q0[i]));
                }
            }
            assert forall|i: int| 0 <= i < self.queue@.len() implies !rows_have_hash(
                self.rows_view(),
                (#[trigger] self.queue@[i]).digest,
            ) by {
                if i < q0.len() {
                    assert(self.queue@[i] == q0[i]);
                    assert(!rows_have_hash(s_mid.rows_view(), q0[i].digest));
                }
            }
            assert forall|i: int, j: int|
                0 <= i < self.rows_view().len() && 0 <= j < self.queue@.len() implies (
            #[trigger] self.rows_view()[i]).id < (#[trigger] self.queue@[j]).id by {
                assert(self.rows_view()[i].id <= old(self).id_counter.value);
                if j < q0.len() {
                    assert(self.queue@[j] == q0[j]);
                } else {
                    assert(self.queue@[j].id == my_id as int);
                }
            }
            assert forall|i: int| 0 <= i < self.rows_view().len() implies (
            #[trigger] self.rows_view()[i]).id <= self.id_counter.value by {
                assert(self.rows_view()[i].id <= old(self).id_counter.value);
            }
            assert forall|j: int| 0 <= j < self.queue@.len() implies (#[trigger] self.queue@[
                j
            ]).id <= self.id_counter.value by {
                if j < q0.len() {
                    assert(self.queue@[j] == q0[j]);
                    assert(q0[j].id <= old(self).id_counter.value);
                }
            }
            assert forall|g: int|
                0 <= g < self.callbacks@.len() implies (!(#[trigger] self.callbacks@[
                g
            ]).flushable ==> slots_have_digest(self.queue@, self.callbacks@[g].digest)) by {
                if !self.callbacks@[g].flushable {
                    assert(slots_have_digest(q0, self.callbacks@[g].digest));
                    let k = slot_index_of_digest(q0, self.callbacks@[g].digest);
                    assert(self.queue@[k] == q0[k]);
                    assert(slots_have_digest(self.queue@, self.callbacks@[g].digest));
                }
            }
        }
        (my_id, effects)
    }

    /// Replaces the level, payload and blob reference of a reserved digest
    /// in place; a digest already drained to the durable store is left
    /// untouched. The reservation id never changes, and an update of an
    /// already-committed entry must itself carry a non-empty blob
    /// reference, which a ready entry may never lose.
    pub fn update_reserved(&mut self, hash_entry: HashEntry)
        requires
            old(self).inv(),
            hash_entry@.hash.len() > 0,
            old(self).known(hash_entry@.hash),
            slots_have_digest(old(self).queue@, hash_entry@.hash) ==> (old(self).queue@[
                slot_index_of_digest(old(self).queue@, hash_entry@.hash)
            ].ready ==> match hash_entry@.persistent_ref {
                Option::Some(b) => b.len() > 0,
                Option::None => false,
            }),
        ensures
            final(self).inv(),
            update_post(*old(self), *final(self), hash_entry@),
    {
        let ghost q0 = self.queue@;
        let HashEntry { hash, level, payload, persistent_ref } = hash_entry;
        match self.queue.find_id(&hash.bytes) {
            Option::Some(id) => {
                proof {
                    let idx = slot_index_of_digest(q0, hash@);
                    assert(q0[idx].entry is Some);
                    assert(entry_of(q0[idx]).id == q0[idx].id);
                }
                self.queue.update_value(
                    &hash.bytes,
                    QueueEntry { id, level, payload, persistent_ref },
                );
                proof {
                    let idx = slot_index_of_digest(q0, hash@);
                    let q1 = self.queue@;
                    assert(q1 == q0.update(
                        idx,
                        SlotV {
                            id: q0[idx].id,
                            digest: hash@,
                            entry: Option::Some(
                                QueueEntryV {
                                    id: q0[idx].id,
                                    level: level as int,
                                    payload: opt_bytes_view(payload),
                                    persistent_ref: opt_bytes_view(persistent_ref),
                                },
                            ),
                            ready: q0[idx].ready,
                        },
                    ));
                    assert(q1 =~= q0.update(
                        idx,
                        SlotV {
                            id: q0[idx].id,
                            digest: q0[idx].digest,
                            entry: Option::Some(
                                QueueEntryV {
                                    id: q0[idx].id,
                                    level: level as int,
                                    payload: opt_bytes_view(payload),
                                    persistent_ref: opt_bytes_view(persistent_ref),
                                },
                            ),
                            ready: q0[idx].ready,
                        },
                    ));
                    self.lemma_update_slot_inv(*old(self), idx);
                }
            },
            Option::None => {
                proof {
                    assert(*self =~= *old(self));
                }
            },
        }
    }

    /// An in-place queue update at one slot — same id, same digest, a new
    /// attached entry, readiness only ever raised with the blob reference
    /// present — preserves the invariant.
    proof fn lemma_update_slot_inv(self, s0: HashIndex<C>, idx: int)
        requires
            s0.inv(),
            0 <= idx < s0.queue@.len(),
            self.rows == s0.rows,
            self.id_counter == s0.id_counter,
            self.callbacks@ == s0.callbacks@,
            self.committed_rows == s0.committed_rows,
            self.queue@.len() == s0.queue@.len(),
            forall|i: int| 0 <= i < s0.queue@.len() && i != idx ==> self.queue@[i] == s0.queue@[i],
            self.queue@[idx].id == s0.queue@[idx].id,
            self.queue@[idx].digest == s0.queue@[idx].digest,
            self.queue@[idx].entry is Some,
            entry_of(self.queue@[idx]).id == self.queue@[idx].id,
            ready_ref_ok(self.queue@[idx]),
        ensures
            self.inv(),
    {
        let q0 = s0.queue@;
        let q1 = self.queue@;
        assert forall|i: int, j: int|
            0 <= i < j < q1.len() implies (#[trigger] q1[i]).id < (#[trigger] q1[j]).id by {
            assert(q1[i].id == q0[i].id && q1[j].id == q0[j].id);
        }
        assert forall|i: int, j: int|
            0 <= i < j < q1.len() implies (#[trigger] q1[i]).digest != (#[trigger] q1[j]).digest by {
            assert(q1[i].digest == q0[i].digest && q1[j].digest == q0[j].digest);
        }
        assert forall|i: int| 0 <= i < q1.len() implies (#[trigger] q1[i]).digest.len() > 0 by {
            assert(q1[i].digest == q0[i].digest);
        }
        assert forall|i: int| 0 <= i < q1.len() implies match (#[trigger] q1[i]).entry {
            Option::Some(e) => e.id == q1[i].id,
            Option::None => !q1[i].ready,
        } by {
            if i != idx {
                assert(q1[i] == q0[i]);
            }
        }
        assert forall|i: int| 0 <= i < q1.len() implies (#[trigger] q1[i]).entry is Some by {
            if i != idx {
                assert(q1[i] == q0[i]);
            }
        }
        assert forall|i: int| 0 <= i < q1.len() implies ready_ref_ok(#[trigger] q1[i]) by {
            if i != idx {
                assert(q1[i] == q0[i]);
                assert(ready_ref_ok(q0[i]));
            }
        }
        assert forall|i: int| 0 <= i < q1.len() implies !rows_have_hash(
            self.rows_view(),
            (#[trigger] q1[i]).digest,
        ) by {
            assert(q1[i].digest == q0[i].digest);
            assert(!rows_have_hash(s0.rows_view(), q0[i].digest));
        }
        assert forall|i: int, j: int|
            0 <= i < self.rows_view().len() && 0 <= j < q1.len() implies (
        #[trigger] self.rows_view()[i]).id < (#[trigger] q1[j]).id by {
            assert(q1[j].id == q0[j].id);
        }
        assert forall|j: int| 0 <= j < q1.len() implies (#[trigger] q1[j]).id
            <= self.id_counter.value by {
            assert(q1[j].id == q0[j].id);
        }
        assert forall|g: int|
            0 <= g < self.callbacks@.len() implies (!(#[trigger] self.callbacks@[g]).flushable
            ==> slots_have_digest(q1, self.callbacks@[g].digest)) by {
            if !self.callbacks@[g].flushable {
                assert(slots_have_digest(q0, self.callbacks@[g].digest));
                let k = slot_index_of_digest(q0, self.callbacks@[g].digest);
                assert(q1[k].digest == q0[k].digest);
                assert(slots_have_digest(q1, self.callbacks@[g].digest));
            }
        }
    }

    /// Marks a reserved digest finalized at `blob_ref`: the slot gets the
    /// reference and turns ready, then every consecutive ready minimum
    /// drains into the durable store, then the timer may flush.
    pub fn commit(&mut self, hash: &Hash, blob_ref: &Vec<u8>, now: u64) -> (effects: Vec<
        Effect<C>,
    >)
        requires
            old(self).inv(),
            hash@.len() > 0,
            blob_ref@.len() > 0,
            slots_have_digest(old(self).queue@, hash@),
        ensures
            final(self).inv(),
            commit_post(*old(self), *final(self), effects_view(effects@), hash@, blob_ref@, now),
    {
        let ghost q0 = self.queue@;
        let ghost idx = slot_index_of_digest(q0, hash@);
        let qe_opt = self.queue.find_entry(&hash.bytes);
        let qe = match qe_opt {
            Option::Some(e) => e,
            Option::None => {
                proof {
                    assert(q0[idx].entry is Some);
                    assert(false);
                }
                QueueEntry { id: 0, level: 0, payload: Option::None, persistent_ref: Option::None }
            },
        };
        proof {
            assert(q0[idx].entry == Option::Some(qe@));
            assert(qe@.id == q0[idx].id);
        }
        let QueueEntry { id, level, payload, persistent_ref: _old_ref } = qe;
        self.queue.update_value(
            &hash.bytes,
            QueueEntry { id, level, payload, persistent_ref: Option::Some(clone_bytes(blob_ref)) },
        );
        proof {
            let q1 = self.queue@;
            assert(q1[idx].id == q0[idx].id) by {
                assert(q1 == q0.update(
                    idx,
                    SlotV {
                        id: q0[idx].id,
                        digest: hash@,
                        entry: Option::Some(
                            QueueEntryV {
                                id: q0[idx].id,
                                level: level as int,
                                payload: opt_bytes_view(payload),
                                persistent_ref: Option::Some(blob_ref@),
                            },
                        ),
                        ready: q0[idx].ready,
                    },
                ));
            }
            self.lemma_update_slot_inv(*old(self), idx);
            assert(slots_have_id(q1, id as int)) by {
                assert(q1[idx].id == id as int);
            }
            let idx2 = slot_index_of_id(q1, id as int);
            assert(0 <= idx2 < q1.len() && q1[idx2].id == id as int);
            if idx2 < idx {
                assert(q1[idx2].id < q1[idx].id);
            } else if idx2 > idx {
                assert(q1[idx].id < q1[idx2].id);
            }
            assert(idx2 == idx);
        }
        let ghost s_before_ready = *self;
        self.queue.set_ready(id);
        proof {
            let e = entry_of(q0[idx]);
            let target = SlotV {
                id: q0[idx].id,
                digest: q0[idx].digest,
                entry: Option::Some(
                    QueueEntryV {
                        id: q0[idx].id,
                        level: e.level,
                        payload: e.payload,
                        persistent_ref: Option::Some(blob_ref@),
                    },
                ),
                ready: true,
            };
            assert(self.queue@ =~= q0.update(idx, target)) by {
                assert(e.level == level as int && e.payload == opt_bytes_view(payload)) by {
                    assert(q0[idx].entry == Option::Some(qe@));
                }
            }
            self.lemma_update_slot_inv(*old(self), idx);
        }
        let mut effects = self.insert_completed_in_order();
        let mut more = self.maybe_flush(now);
        let ghost e1 = effects@;
        let ghost e2 = more@;
        effects.append(&mut more);
        proof {
            assert(effects@ == e1 + e2);
            assert(effects_view(e1 + e2) =~= effects_view(e1) + effects_view(e2));
        }
        effects
    }

    /// Registers a continuation for a digest: queued while the digest is
    /// pending; run at once only when the digest's row is already durably
    /// committed; deferred to the next commit, already marked flushable,
    /// when the row still sits in the open transaction; refused when the
    /// digest is unknown. Returns whether it was accepted, and the effects.
    pub fn register_hash_callback(&mut self, hash: &Hash, callback: C) -> (res: (
        bool,
        Vec<Effect<C>>,
    ))
        requires
            old(self).inv(),
            hash@.len() > 0,
        ensures
            final(self).inv(),
            register_post(
                *old(self),
                *final(self),
                effects_view(res.1@),
                hash@,
                callback,
                res.0,
            ),
    {
        match self.queue.find_id(&hash.bytes) {
            Option::Some(_id) => {
                let ghost c0 = self.callbacks@;
                self.callbacks.add(clone_bytes(&hash.bytes), callback);
                proof {
                    let c1 = self.callbacks@;
                    assert forall|g: int|
                        0 <= g < c1.len() implies ((#[trigger] c1[g]).flushable ==> rows_have_hash(
                        self.rows_view(),
                        c1[g].digest,
                    )) && (!(#[trigger] c1[g]).flushable ==> slots_have_digest(
                        self.queue@,
                        c1[g].digest,
                    )) by {
                        if groups_have_digest(c0, hash@) {
                            let gi = group_index_of(c0, hash@);
                            if g == gi {
                                assert(c1[g].digest == hash@);
                                assert(c1[g].flushable == c0[gi].flushable);
                            } else {
                                assert(c1[g] == c0[g]);
                            }
                        } else {
                            if g < c0.len() {
                                assert(c1[g] == c0[g]);
                            } else {
                                assert(c1[g].digest == hash@ && !c1[g].flushable);
                            }
                        }
                    }
                    assert(effects_view(Seq::<Effect<C>>::empty()) =~= Seq::<
                        EffectV<C>,
                    >::empty());
                }
                let effects: Vec<Effect<C>> = Vec::new();
                proof {
                    assert(effects_view(effects@) =~= Seq::<EffectV<C>>::empty());
                }
                (true, effects)
            },
            Option::None => {
                let ghost rv = self.rows_view();
                let n = self.rows.len();
                let mut i: usize = 0;
                while i < n
                    invariant
                        self.inv(),
                        *self == *old(self),
                        rv == self.rows_view(),
                        hash@.len() > 0,
                        !slots_have_digest(old(self).queue@, hash@),
                        n == self.rows@.len(),
                        i <= n,
                        forall|j: int| 0 <= j < i ==> (#[trigger] rv[j]).hash != hash@,
                    decreases n - i,
                {
                    if bytes_eq(&self.rows[i].hash, &hash.bytes) {
                        proof {
                            assert(rv[i as int].hash == hash@);
                            assert(rows_have_hash(rv, hash@));
                            let idx = row_index_of(rv, hash@);
                            assert(0 <= idx < rv.len() && rv[idx].hash == hash@);
                            if idx != i as int {
                                assert(rv[idx].hash != rv[i as int].hash);
                            }
                        }
                        if i < self.committed_rows {
                            // the row is durably committed: the promise the
                            // continuation waits on already holds
                            let mut effects: Vec<Effect<C>> = Vec::new();
                            effects.push(Effect::RunCallback(callback));
                            proof {
                                assert(effects_view(effects@) =~= seq![
                                    EffectV::<C>::RunCallback(callback),
                                ]);
                                assert(*self =~= *old(self));
                            }
                            return (true, effects);
                        } else {
                            // drained but not yet committed: defer the
                            // continuation to the commit that follows
                            let ghost c0 = self.callbacks@;
                            self.callbacks.add(clone_bytes(&hash.bytes), callback);
                            let ghost c_mid = self.callbacks@;
                            self.callbacks.allow_flush(&hash.bytes);
                            proof {
                                self.lemma_register_deferred(
                                    *old(self),
                                    c0,
                                    c_mid,
                                    hash@,
                                    callback,
                                );
                            }
                            let effects: Vec<Effect<C>> = Vec::new();
                            proof {
                                assert(effects_view(effects@) =~= Seq::<EffectV<C>>::empty());
                            }
                            return (true, effects);
                        }
                    }
                    i += 1;
                }
                proof {
                    assert(!rows_have_hash(rv, hash@));
                }
                let effects: Vec<Effect<C>> = Vec::new();
                proof {
                    assert(effects_view(effects@) =~= Seq::<EffectV<C>>::empty());
                    assert(*self =~= *old(self));
                }
                (false, effects)
            },
        }
    }

    /// Appending a continuation for a drained-but-uncommitted digest and
    /// marking its group flushable yields exactly the registry the contract
    /// names, and keeps the invariant: the group's digest has its row.
    proof fn lemma_register_deferred(
        self,
        s0: HashIndex<C>,
        c0: Seq<GroupV<C>>,
        c_mid: Seq<GroupV<C>>,
        d: Seq<u8>,
        c: C,
    )
        requires
            s0.inv(),
            c0 == s0.callbacks@,
            rows_have_hash(s0.rows_view(), d),
            !slots_have_digest(s0.queue@, d),
            groups_unique(c_mid),
            groups_have_digest(c0, d) ==> c_mid == c0.update(
                group_index_of(c0, d),
                GroupV {
                    digest: d,
                    callbacks: c0[group_index_of(c0, d)].callbacks.push(c),
                    flushable: c0[group_index_of(c0, d)].flushable,
                },
            ),
            !groups_have_digest(c0, d) ==> c_mid == c0.push(
                GroupV { digest: d, callbacks: seq![c], flushable: false },
            ),
            self.callbacks@ == allowed_of(c_mid, d),
            self.rows == s0.rows,
            self.queue == s0.queue,
            self.id_counter == s0.id_counter,
            self.flush_timer == s0.flush_timer,
            self.committed_rows == s0.committed_rows,
        ensures
            self.inv(),
            groups_have_digest(c0, d) ==> self.callbacks@ == c0.update(
                group_index_of(c0, d),
                GroupV {
                    digest: d,
                    callbacks: c0[group_index_of(c0, d)].callbacks.push(c),
                    flushable: true,
                },
            ),
            !groups_have_digest(c0, d) ==> self.callbacks@ == c0.push(
                GroupV { digest: d, callbacks: seq![c], flushable: true },
            ),
    {
        let c1 = self.callbacks@;
        let gi_mid = if groups_have_digest(c0, d) {
            group_index_of(c0, d)
        } else {
            c0.len() as int
        };
        assert(0 <= gi_mid < c_mid.len() && c_mid[gi_mid].digest == d) by {
            if groups_have_digest(c0, d) {
                assert(0 <= gi_mid < c0.len() && c0[gi_mid].digest == d);
            }
        }
        assert(groups_have_digest(c_mid, d));
        let gi2 = group_index_of(c_mid, d);
        assert(0 <= gi2 < c_mid.len() && c_mid[gi2].digest == d);
        if gi2 != gi_mid {
            assert(c_mid[gi2].digest != c_mid[gi_mid].digest);
        }
        assert(c1 == c_mid.update(
            gi_mid,
            GroupV {
                digest: c_mid[gi_mid].digest,
                callbacks: c_mid[gi_mid].callbacks,
                flushable: true,
            },
        ));
        if groups_have_digest(c0, d) {
            let gi = group_index_of(c0, d);
            assert(c1 =~= c0.update(
                gi,
                GroupV { digest: d, callbacks: c0[gi].callbacks.push(c), flushable: true },
            ));
        } else {
            assert(c1 =~= c0.push(GroupV { digest: d, callbacks: seq![c], flushable: true }));
        }
        assert(groups_unique(c1)) by {
            assert forall|a: int, b: int|
                0 <= a < b < c1.len() implies (#[trigger] c1[a]).digest != (
            #[trigger] c1[b]).digest by {
                assert(c1[a].digest == c_mid[a].digest);
                assert(c1[b].digest == c_mid[b].digest);
            }
        }
        assert forall|g: int|
            0 <= g < c1.len() implies ((#[trigger] c1[g]).flushable ==> rows_have_hash(
            self.rows_view(),
            c1[g].digest,
        )) && (!(#[trigger] c1[g]).flushable ==> slots_have_digest(
            self.queue@,
            c1[g].digest,
        )) by {
            if g == gi_mid {
                assert(c1[g].digest == d && c1[g].flushable);
            } else {
                if g < c0.len() {
                    assert(c1[g] == c0[g]);
                }
            }
        }
    }

    /// Handles one request to completion and returns the reply together
    /// with the side effects to perform, in order.
    pub fn handle(&mut self, msg: Msg<C>, now: u64) -> (res: (Reply, Vec<Effect<C>>))
        requires
            old(self).inv(),
            msg_wf(*old(self), msg),
        ensures
            final(self).inv(),
            match msg {
                Msg::HashExists(h) => {
                    &&& *final(self) == *old(self)
                    &&& res.1@.len() == 0
                    &&& (res.0 matches Reply::HashKnown <==> old(self).known(h@))
                    &&& (res.0 matches Reply::HashKnown || res.0 matches Reply::HashNotKnown)
                },
                Msg::FetchPayload(h) => {
                    &&& *final(self) == *old(self)
                    &&& res.1@.len() == 0
                    &&& match old(self).spec_locate(h@) {
                        Option::Some(l) => res.0 matches Reply::Payload(p) && opt_bytes_view(p)
                            == l.payload,
                        Option::None => res.0 matches Reply::HashNotKnown,
                    }
                },
                Msg::FetchPersistentRef(h) => {
                    &&& *final(self) == *old(self)
                    &&& res.1@.len() == 0
                    &&& match old(self).spec_locate(h@) {
                        Option::Some(l) => match l.persistent_ref {
                            Option::Some(b) => res.0 matches Reply::PersistentRef(v) && v@ == b,
                            Option::None => res.0 matches Reply::Retry,
                        },
                        Option::None => res.0 matches Reply::HashNotKnown,
                    }
                },
                Msg::Reserve(he) => {
                    if old(self).known(he@.hash) {
                        &&& *final(self) == *old(self)
                        &&& res.1@.len() == 0
                        &&& res.0 matches Reply::HashKnown
                    } else {
                        &&& reserve_post(
                            *old(self),
                            *final(self),
                            effects_view(res.1@),
                            he@,
                            now,
                        )
                        &&& res.0 matches Reply::ReserveOK
                    }
                },
                Msg::UpdateReserved(he) => {
                    &&& update_post(*old(self), *final(self), he@)
                    &&& res.1@.len() == 0
                    &&& res.0 matches Reply::ReserveOK
                },
                Msg::Commit(h, blob) => {
                    &&& commit_post(
                        *old(self),
                        *final(self),
                        effects_view(res.1@),
                        h@,
                        blob@,
                        now,
                    )
                    &&& res.0 matches Reply::CommitOK
                },
                Msg::CallAfterHashIsComitted(h, c) => {
                    &&& register_post(
                        *old(self),
                        *final(self),
                        effects_view(res.1@),
                        h@,
                        c,
                        res.0 matches Reply::CallbackRegistered,
                    )
                    &&& (res.0 matches Reply::CallbackRegistered || res.0
                        matches Reply::HashNotKnown)
                },
                Msg::Flush => {
                    &&& flush_post(*old(self), *final(self), effects_view(res.1@))
                    &&& res.0 matches Reply::CommitOK
                },
            },
    {
        match msg {
            Msg::HashExists(hash) => {
                let reply = match self.locate(&hash) {
                    Option::Some(_e) => Reply::HashKnown,
                    Option::None => Reply::HashNotKnown,
                };
                (reply, Vec::new())
            },
            Msg::FetchPayload(hash) => {
                let reply = match self.locate(&hash) {
                    Option::Some(entry) => Reply::Payload(entry.payload),
                    Option::None => Reply::HashNotKnown,
                };
                (reply, Vec::new())
            },
            Msg::FetchPersistentRef(hash) => {
                let reply = match self.locate(&hash) {
                    Option::Some(entry) => match entry.persistent_ref {
                        Option::Some(r) => Reply::PersistentRef(r),
                        Option::None => Reply::Retry,
                    },
                    Option::None => Reply::HashNotKnown,
                };
                (reply, Vec::new())
            },
            Msg::Reserve(hash_entry) => {
                match self.locate(&hash_entry.hash) {
                    Option::Some(_e) => (Reply::HashKnown, Vec::new()),
                    Option::None => {
                        let (_id, effects) = self.reserve(hash_entry, now);
                        (Reply::ReserveOK, effects)
                    },
                }
            },
            Msg::UpdateReserved(hash_entry) => {
                self.update_reserved(hash_entry);
                (Reply::ReserveOK, Vec::new())
            },
            Msg::Commit(hash, persistent_ref) => {
                let effects = self.commit(&hash, &persistent_ref, now);
                (Reply::CommitOK, effects)
            },
            Msg::CallAfterHashIsComitted(hash, callback) => {
                let (registered, effects) = self.register_hash_callback(&hash, callback);
                let reply = if registered {
                    Reply::CallbackRegistered
                } else {
                    Reply::HashNotKnown
                };
                (reply, effects)
            },
            Msg::Flush => {
                let effects = self.flush();
                (Reply::CommitOK, effects)
            },
        }
    }

    /// Orderly shutdown: flush, then commit the trailing transaction. The
    /// caller must have committed every reservation (the queue is empty),
    /// and the flush then empties the registry too.
    pub fn shutdown(&mut self) -> (effects: Vec<Effect<C>>)
        requires
            old(self).inv(),
            old(self).queue@.len() == 0,
        ensures
            final(self).inv(),
            final(self).callbacks@.len() == 0,
            final(self).queue@.len() == 0,
            final(self).rows == old(self).rows,
            final(self).committed_rows == old(self).rows@.len(),
            effects_view(effects@) == seq![EffectV::<C>::CommitDb] + rc_effects(
                fired_of(old(self).callbacks@),
            ) + seq![EffectV::<C>::CommitDb],
    {
        let ghost c0 = self.callbacks@;
        let mut effects = self.flush();
        proof {
            lemma_kept_of(c0);
            if kept_of(c0).len() > 0 {
                assert(!kept_of(c0)[0].flushable);
                let j = choose|j: int| 0 <= j < c0.len() && #[trigger] kept_of(c0)[0] == c0[j];
                assert(slots_have_digest(old(self).queue@, c0[j].digest));
                assert(false);
            }
            assert(self.callbacks@.len() == 0);
        }
        let ghost epre = effects@;
        effects.push(Effect::CommitDb);
        proof {
            assert(effects_view(effects@) =~= effects_view(epre) + seq![EffectV::<C>::CommitDb]);
        }
        effects
    }
}

/// A drain only appends: the durable store afterwards is the store before
/// followed by exactly the inserted rows, in order.
pub proof fn lemma_drain_rows_extend<C>(q: Seq<SlotV>, rows: Seq<RowV>, cbs: Seq<GroupV<C>>)
    ensures
        drain_spec(q, rows, cbs).rows == rows + drain_spec(q, rows, cbs).inserted,
    decreases q.len(),
{
    if q.len() > 0 && q[0].ready {
        let row = row_of_slot(q[0]);
        lemma_drain_rows_extend(q.drop_first(), rows.push(row), allowed_of(cbs, q[0].digest));
        assert(rows + drain_spec(q, rows, cbs).inserted =~= (rows.push(row)) + drain_spec(
            q.drop_first(),
            rows.push(row),
            allowed_of(cbs, q[0].digest),
        ).inserted);
    } else {
        assert(rows + Seq::<RowV>::empty() =~= rows);
    }
}

/// A drain pops from the front only: what remains of the queue is a suffix.
pub proof fn lemma_drain_queue_suffix<C>(q: Seq<SlotV>, rows: Seq<RowV>, cbs: Seq<GroupV<C>>)
    ensures
        drain_spec(q, rows, cbs).queue.len() <= q.len(),
        forall|i: int|
            0 <= i < drain_spec(q, rows, cbs).queue.len() ==> #[trigger] drain_spec(
                q,
                rows,
                cbs,
            ).queue[i] == q[i + (q.len() - drain_spec(q, rows, cbs).queue.len())],
    decreases q.len(),
{
    if q.len() > 0 && q[0].ready {
        let row = row_of_slot(q[0]);
        let qd = q.drop_first();
        lemma_drain_queue_suffix(qd, rows.push(row), allowed_of(cbs, q[0].digest));
        let dr = drain_spec(q, rows, cbs);
        assert forall|i: int| 0 <= i < dr.queue.len() implies #[trigger] dr.queue[i] == q[i + (
        q.len() - dr.queue.len())] by {
            assert(dr.queue[i] == qd[i + (qd.len() - dr.queue.len())]);
            assert(qd[i + (qd.len() - dr.queue.len())] == q[i + (q.len() - dr.queue.len())]);
        }
    }
}

/// A drain is greedy: afterwards the queue is empty or its minimum is not
/// ready — a ready entry behind a smaller non-ready id stays queued.
pub proof fn lemma_drain_stops<C>(q: Seq<SlotV>, rows: Seq<RowV>, cbs: Seq<GroupV<C>>)
    ensures
        !(drain_spec(q, rows, cbs).queue.len() > 0 && drain_spec(q, rows, cbs).queue[0].ready),
    decreases q.len(),
{
    if q.len() > 0 && q[0].ready {
        lemma_drain_stops(
            q.drop_first(),
            rows.push(row_of_slot(q[0])),
            allowed_of(cbs, q[0].digest),
        );
    }
}

/// A drain tracks each pending digest: its slot either survives unchanged
/// in the remaining queue, or its row — built from exactly that slot — now
/// stands in the durable store.
pub proof fn lemma_drain_tracks_digest<C>(
    q: Seq<SlotV>,
    rows: Seq<RowV>,
    cbs: Seq<GroupV<C>>,
    d: Seq<u8>,
)
    requires
        slots_wf(q),
        slots_have_digest(q, d),
    ensures
        ({
            let dr = drain_spec(q, rows, cbs);
            let sl = q[slot_index_of_digest(q, d)];
            if slots_have_digest(dr.queue, d) {
                dr.queue[slot_index_of_digest(dr.queue, d)] == sl
            } else {
                exists|k: int| 0 <= k < dr.rows.len() && #[trigger] dr.rows[k] == row_of_slot(sl)
            }
        }),
    decreases q.len(),
{
    let dr = drain_spec(q, rows, cbs);
    let idx = slot_index_of_digest(q, d);
    assert(0 <= idx < q.len() && q[idx].digest == d);
    let sl = q[idx];
    if q.len() > 0 && q[0].ready {
        let row = row_of_slot(q[0]);
        let qd = q.drop_first();
        let rows1 = rows.push(row);
        let cbs1 = allowed_of(cbs, q[0].digest);
        if idx == 0 {
            // the slot for d is drained right now; it can never reappear in
            // the remaining queue, whose digests all differ from d
            lemma_drain_rows_extend(qd, rows1, cbs1);
            lemma_drain_queue_suffix(qd, rows1, cbs1);
            assert(dr.rows == rows1 + drain_spec(qd, rows1, cbs1).inserted);
            assert(dr.rows[rows.len() as int] == row);
            if slots_have_digest(dr.queue, d) {
                let j = slot_index_of_digest(dr.queue, d);
                assert(0 <= j < dr.queue.len() && dr.queue[j].digest == d);
                let shift = qd.len() - dr.queue.len();
                assert(dr.queue[j] == qd[j + shift]);
                assert(qd[j + shift] == q[j + shift + 1]);
                assert(q[j + shift + 1].digest != q[0].digest);
                assert(false);
            }
            assert(exists|k: int|
                0 <= k < dr.rows.len() && #[trigger] dr.rows[k] == row_of_slot(sl)) by {
                assert(dr.rows[rows.len() as int] == row_of_slot(sl));
            }
        } else {
            assert(qd[idx - 1] == sl);
            assert(slots_wf(qd)) by {
                assert forall|a: int, b: int|
                    0 <= a < b < qd.len() implies (#[trigger] qd[a]).id < (#[trigger] qd[b]).id by {
                    assert(qd[a] == q[a + 1] && qd[b] == q[b + 1]);
                }
                assert forall|a: int, b: int|
                    0 <= a < b < qd.len() implies (#[trigger] qd[a]).digest != (
                #[trigger] qd[b]).digest by {
                    assert(qd[a] == q[a + 1] && qd[b] == q[b + 1]);
                }
                assert forall|a: int| 0 <= a < qd.len() implies (#[trigger] qd[a]).digest.len()
                    > 0 by {
                    assert(qd[a] == q[a + 1]);
                }
                assert forall|a: int| 0 <= a < qd.len() implies match (#[trigger] qd[a]).entry {
                    Option::Some(e) => e.id == qd[a].id,
                    Option::None => !qd[a].ready,
                } by {
                    assert(qd[a] == q[a + 1]);
                    assert(match q[a + 1].entry {
                        Option::Some(e) => e.id == q[a + 1].id,
                        Option::None => !q[a + 1].ready,
                    });
                }
            }
            assert(slots_have_digest(qd, d)) by {
                assert(qd[idx - 1].digest == d);
            }
            let idxd = slot_index_of_digest(qd, d);
            assert(0 <= idxd < qd.len() && qd[idxd].digest == d);
            if idxd != idx - 1 {
                assert(qd[idxd].digest != qd[idx - 1].digest);
            }
            assert(qd[idxd] == sl);
            lemma_drain_tracks_digest(qd, rows1, cbs1, d);
            let rest = drain_spec(qd, rows1, cbs1);
            assert(dr.queue == rest.queue);
            assert(dr.rows == rest.rows);
            if slots_have_digest(rest.queue, d) {
                assert(rest.queue[slot_index_of_digest(rest.queue, d)] == qd[slot_index_of_digest(
                    qd,
                    d,
                )]);
                assert(dr.queue[slot_index_of_digest(dr.queue, d)] == sl);
            } else {
                let k0 = choose|k: int|
                    0 <= k < rest.rows.len() && #[trigger] rest.rows[k] == row_of_slot(
                        qd[slot_index_of_digest(qd, d)],
                    );
                assert(0 <= k0 < dr.rows.len() && dr.rows[k0] == row_of_slot(sl));
                assert(exists|k: int|
                    0 <= k < dr.rows.len() && #[trigger] dr.rows[k] == row_of_slot(sl));
            }
        }
    } else {
        assert(dr.queue == q);
    }
}

/// Uniqueness: a digest occupies at most one queue slot, and never both
/// the queue and the durable store — so its content is uploaded at most
/// once. `new` establishes the invariant and every operation preserves it,
/// so this holds in every reachable state. (A repeated `Reserve` answers
/// `HashKnown` and changes nothing: that is the `Reserve` arm of `handle`'s
/// contract.)
pub proof fn lemma_uniqueness<C>(s: HashIndex<C>, d: Seq<u8>)
    requires
        s.inv(),
    ensures
        forall|i: int, j: int|
            0 <= i < s.queue@.len() && 0 <= j < s.queue@.len() && (#[trigger] s.queue@[i]).digest
                == d && (#[trigger] s.queue@[j]).digest == d ==> i == j,
        slots_have_digest(s.queue@, d) ==> !rows_have_hash(s.rows_view(), d),
{
    assert forall|i: int, j: int|
        0 <= i < s.queue@.len() && 0 <= j < s.queue@.len() && (#[trigger] s.queue@[i]).digest == d
            && (#[trigger] s.queue@[j]).digest == d implies i == j by {
        if i < j {
            assert(s.queue@[i].digest != s.queue@[j].digest);
        } else if j < i {
            assert(s.queue@[j].digest != s.queue@[i].digest);
        }
    }
    if slots_have_digest(s.queue@, d) {
        let i = slot_index_of_digest(s.queue@, d);
        assert(!rows_have_hash(s.rows_view(), s.queue@[i].digest));
    }
}

/// Write ordering (the durable prefix): the durable store's ids strictly
/// ascend, every durable id lies below every pending id, a commit only
/// ever appends to the store — the rows already there stay in place — and
/// the drain is greedy: it stops exactly at the first non-ready
/// reservation, so the stored ids are a contiguous prefix of the
/// reservation order.
pub proof fn lemma_insertion_order<C>(
    s0: HashIndex<C>,
    s1: HashIndex<C>,
    ev: Seq<EffectV<C>>,
    d: Seq<u8>,
    blob: Seq<u8>,
    now: u64,
)
    requires
        s0.inv(),
        s1.inv(),
        slots_have_digest(s0.queue@, d),
        commit_post(s0, s1, ev, d, blob, now),
    ensures
        rows_sorted(s1.rows_view()),
        forall|i: int, j: int|
            0 <= i < s1.rows_view().len() && 0 <= j < s1.queue@.len() ==> (
            #[trigger] s1.rows_view()[i]).id < (#[trigger] s1.queue@[j]).id,
        s1.rows_view().len() >= s0.rows_view().len(),
        forall|i: int|
            0 <= i < s0.rows_view().len() ==> #[trigger] s1.rows_view()[i] == s0.rows_view()[i],
        s1.queue@.len() > 0 ==> !s1.queue@[0].ready,
{
    let idx = slot_index_of_digest(s0.queue@, d);
    let sl = s0.queue@[idx];
    let e = entry_of(sl);
    let q1 = s0.queue@.update(
        idx,
        SlotV {
            id: sl.id,
            digest: sl.digest,
            entry: Option::Some(
                QueueEntryV {
                    id: sl.id,
                    level: e.level,
                    payload: e.payload,
                    persistent_ref: Option::Some(blob),
                },
            ),
            ready: true,
        },
    );
    lemma_drain_rows_extend(q1, rows_seq_view(s0.rows@), s0.callbacks@);
    lemma_drain_stops(q1, rows_seq_view(s0.rows@), s0.callbacks@);
    let dr = drain_spec(q1, rows_seq_view(s0.rows@), s0.callbacks@);
    assert(s1.rows_view() == rows_seq_view(s0.rows@) + dr.inserted);
    assert forall|i: int|
        0 <= i < s0.rows_view().len() implies #[trigger] s1.rows_view()[i] == s0.rows_view()[
        i
    ] by {
        assert(s1.rows_view()[i] == (rows_seq_view(s0.rows@) + dr.inserted)[i]);
    }
}

/// The durability gate: a flush first commits the database, then — and only
/// then — releases continuations, each registered for a digest whose row
/// already stands in the durable store at the moment of the commit.
pub proof fn lemma_durability_gate<C>(s0: HashIndex<C>, s1: HashIndex<C>, ev: Seq<EffectV<C>>)
    requires
        s0.inv(),
        flush_post(s0, s1, ev),
    ensures
        ev.len() >= 1,
        ev[0] == EffectV::<C>::CommitDb,
        s1.committed_rows == s1.rows@.len(),
        forall|i: int|
            1 <= i < ev.len() ==> #[trigger] ev[i] == EffectV::<C>::RunCallback(
                fired_of(s0.callbacks@)[i - 1],
            ),
        forall|i: int| #![trigger fired_of(s0.callbacks@)[i - 1]]
            1 <= i < ev.len() ==> from_flushable(s0.callbacks@, fired_of(s0.callbacks@)[i - 1]),
        forall|g: int|
            0 <= g < s0.callbacks@.len() ==> ((#[trigger] s0.callbacks@[g]).flushable
                ==> rows_have_hash(s0.rows_view(), s0.callbacks@[g].digest)),
{
    let fired = fired_of(s0.callbacks@);
    assert(ev == seq![EffectV::<C>::CommitDb] + rc_effects(fired));
    assert forall|i: int| 1 <= i < ev.len() implies #[trigger] ev[i] == EffectV::<C>::RunCallback(
        fired[i - 1],
    ) by {
        assert(ev[i] == rc_effects(fired)[i - 1]);
    }
    lemma_fired_of(s0.callbacks@);
}

/// Lookup transparency: once a pending digest carries blob reference `r`,
/// `FetchPersistentRef` observes `r`, and it still observes `r` after a
/// commit with that reference drains the digest into the durable store.
pub proof fn lemma_lookup_transparency<C>(
    s0: HashIndex<C>,
    s1: HashIndex<C>,
    ev: Seq<EffectV<C>>,
    d: Seq<u8>,
    r: Seq<u8>,
    now: u64,
)
    requires
        s0.inv(),
        s1.inv(),
        slots_have_digest(s0.queue@, d),
        entry_of(s0.queue@[slot_index_of_digest(s0.queue@, d)]).persistent_ref == Option::Some(
            r,
        ),
        commit_post(s0, s1, ev, d, r, now),
    ensures
        s0.spec_locate(d) matches Option::Some(l) && l.persistent_ref == Option::Some(r),
        s1.spec_locate(d) matches Option::Some(l) && l.persistent_ref == Option::Some(r),
{
    let idx = slot_index_of_digest(s0.queue@, d);
    let sl = s0.queue@[idx];
    let e = entry_of(sl);
    let target = SlotV {
        id: sl.id,
        digest: sl.digest,
        entry: Option::Some(
            QueueEntryV {
                id: sl.id,
                level: e.level,
                payload: e.payload,
                persistent_ref: Option::Some(r),
            },
        ),
        ready: true,
    };
    let q1 = s0.queue@.update(idx, target);
    let dr = drain_spec(q1, rows_seq_view(s0.rows@), s0.callbacks@);
    assert(slots_wf(q1)) by {
        assert forall|a: int, b: int|
            0 <= a < b < q1.len() implies (#[trigger] q1[a]).id < (#[trigger] q1[b]).id by {
            assert(q1[a].id == s0.queue@[a].id && q1[b].id == s0.queue@[b].id);
        }
        assert forall|a: int, b: int|
            0 <= a < b < q1.len() implies (#[trigger] q1[a]).digest != (#[trigger] q1[b]).digest by {
            assert(q1[a].digest == s0.queue@[a].digest && q1[b].digest == s0.queue@[b].digest);
        }
        assert forall|a: int| 0 <= a < q1.len() implies (#[trigger] q1[a]).digest.len() > 0 by {
            assert(q1[a].digest == s0.queue@[a].digest);
        }
        assert forall|a: int| 0 <= a < q1.len() implies match (#[trigger] q1[a]).entry {
            Option::Some(en) => en.id == q1[a].id,
            Option::None => !q1[a].ready,
        } by {
            if a != idx {
                assert(q1[a] == s0.queue@[a]);
            }
        }
    }
    assert(slots_have_digest(q1, d)) by {
        assert(q1[idx].digest == d);
    }
    let idx1 = slot_index_of_digest(q1, d);
    assert(0 <= idx1 < q1.len() && q1[idx1].digest == d);
    if idx1 != idx {
        assert(q1[idx1].digest != q1[idx].digest) by {
            assert(q1[idx1].digest == s0.queue@[idx1].digest);
            assert(q1[idx].digest == s0.queue@[idx].digest);
        }
    }
    assert(q1[idx1] == target);
    lemma_drain_tracks_digest(q1, rows_seq_view(s0.rows@), s0.callbacks@, d);
    if slots_have_digest(dr.queue, d) {
        assert(dr.queue[slot_index_of_digest(dr.queue, d)] == target);
        assert(s1.spec_locate(d) matches Option::Some(l) && l.persistent_ref == Option::Some(r));
    } else {
        let k = choose|k: int| 0 <= k < dr.rows.len() && #[trigger] dr.rows[k] == row_of_slot(
            target,
        );
        assert(row_of_slot(target).hash == d);
        assert(row_of_slot(target).blob_ref == r);
        assert(rows_have_hash(s1.rows_view(), d)) by {
            assert(s1.rows_view()[k].hash == d);
        }
        let k1 = row_index_of(s1.rows_view(), d);
        assert(0 <= k1 < s1.rows_view().len() && s1.rows_view()[k1].hash == d);
        if k1 != k {
            assert(s1.rows_view()[k1].hash != s1.rows_view()[k].hash);
        }
        assert(s1.rows_view()[k1] == row_of_slot(target));
        assert(s1.spec_locate(d) matches Option::Some(l) && l.persistent_ref == Option::Some(r));
    }
}

/// Restart semantics: an index opened over a durable store is a function of
/// the committed rows alone — two indexes over equal rows answer every
/// lookup alike and resume from the same id.
pub proof fn lemma_restart_semantics<C>(s1: HashIndex<C>, s2: HashIndex<C>)
    requires
        s1.rows_view() == s2.rows_view(),
        s1.queue@ == Seq::<SlotV>::empty(),
        s2.queue@ == Seq::<SlotV>::empty(),
        s1.id_counter.value as int == (if s1.rows_view().len() == 0 {
            0int
        } else {
            s1.rows_view().last().id
        }),
        s2.id_counter.value as int == (if s2.rows_view().len() == 0 {
            0int
        } else {
            s2.rows_view().last().id
        }),
    ensures
        forall|d: Seq<u8>| s1.spec_locate(d) == s2.spec_locate(d),
        forall|d: Seq<u8>| s1.known(d) == s2.known(d),
        s1.id_counter.value == s2.id_counter.value,
{
    assert forall|d: Seq<u8>| s1.spec_locate(d) == s2.spec_locate(d) by {
        assert(!slots_have_digest(s1.queue@, d));
        assert(!slots_have_digest(s2.queue@, d));
    }
}

/// Ids are never reissued: in every state satisfying the invariant the
/// counter dominates every stored and every pending id, so the next issued
/// id — `counter + 1`, by `next_id`'s contract — strictly exceeds every id
/// ever handed out, however many times `next_id` has run.
pub proof fn lemma_ids_dominated<C>(s: HashIndex<C>)
    requires
        s.inv(),
    ensures
        forall|i: int|
            0 <= i < s.rows_view().len() ==> (#[trigger] s.rows_view()[i]).id
                < s.id_counter.value + 1,
        forall|j: int|
            0 <= j < s.queue@.len() ==> (#[trigger] s.queue@[j]).id < s.id_counter.value + 1,
{
}

/// Id monotonicity across restarts: the counter resumes above every id in
/// the durable store, so the next issued id strictly exceeds them all.
pub proof fn lemma_id_monotonic_across_restarts<C>(s: HashIndex<C>)
    requires
        rows_wf(s.rows_view()),
        s.queue@ == Seq::<SlotV>::empty(),
        s.id_counter.value as int == (if s.rows_view().len() == 0 {
            0int
        } else {
            s.rows_view().last().id
        }),
    ensures
        forall|i: int|
            0 <= i < s.rows_view().len() ==> (#[trigger] s.rows_view()[i]).id
                < s.id_counter.value + 1,
{
    let rv = s.rows_view();
    assert forall|i: int| 0 <= i < rv.len() implies (#[trigger] rv[i]).id < s.id_counter.value
        + 1 by {
        if i < rv.len() - 1 {
            assert(rv[i].id < rv[rv.len() - 1].id);
        }
    }
}

} // verus!
