//! Registry of deferred continuations, released only after a durable commit.
//!
//! A continuation registered for a digest must not run before the database
//! commit that follows the digest's drain into the durable store. The
//! registry therefore keeps, per digest, the continuations in registration
//! order together with a `flushable` flag: `allow_flush` is called when the
//! digest's row is written (the drain step), and `flush_all` — called only
//! right after a durable commit — releases exactly the flushable groups.
//!
//! The continuation type `C` is opaque to the registry: the index hands the
//! released continuations back to its embedding program, which invokes them.

use vstd::prelude::*;

use crate::bytes::bytes_eq;

verus! {

/// Abstract value of one callback group.
pub ghost struct GroupV<C> {
    pub digest: Seq<u8>,
    pub callbacks: Seq<C>,
    pub flushable: bool,
}

/// The continuations registered for one digest, in registration order.
pub struct CallbackGroup<C> {
    pub digest: Vec<u8>,
    pub callbacks: Vec<C>,
    pub flushable: bool,
}

impl<C> View for CallbackGroup<C> {
    type V = GroupV<C>;

    open spec fn view(&self) -> GroupV<C> {
        GroupV { digest: self.digest@, callbacks: self.callbacks@, flushable: self.flushable }
    }
}

/// Per-digest lists of deferred continuations, in creation order.
pub struct CallbackRegistry<C> {
    pub groups: Vec<CallbackGroup<C>>,
}

impl<C> View for CallbackRegistry<C> {
    type V = Seq<GroupV<C>>;

    open spec fn view(&self) -> Seq<GroupV<C>> {
        self.groups@.map_values(|g: CallbackGroup<C>| g@)
    }
}

/// Each digest has at most one group.
pub open spec fn groups_unique<C>(gs: Seq<GroupV<C>>) -> bool {
    forall|i: int, j: int|
        0 <= i < j < gs.len() ==> (#[trigger] gs[i]).digest != (#[trigger] gs[j]).digest
}

/// Some group carries the digest `d`.
pub open spec fn groups_have_digest<C>(gs: Seq<GroupV<C>>, d: Seq<u8>) -> bool {
    exists|i: int| 0 <= i < gs.len() && (#[trigger] gs[i]).digest == d
}

/// The index of the group for digest `d` (unique when `groups_unique`).
pub open spec fn group_index_of<C>(gs: Seq<GroupV<C>>, d: Seq<u8>) -> int {
    choose|i: int| 0 <= i < gs.len() && (#[trigger] gs[i]).digest == d
}

/// The continuations a flush releases: those of flushable groups, in order.
pub open spec fn fired_of<C>(gs: Seq<GroupV<C>>) -> Seq<C>
    decreases gs.len(),
{
    if gs.len() == 0 {
        Seq::empty()
    } else if gs[0].flushable {
        gs[0].callbacks + fired_of(gs.drop_first())
    } else {
        fired_of(gs.drop_first())
    }
}

/// The groups a flush leaves behind: the non-flushable ones, in order.
pub open spec fn kept_of<C>(gs: Seq<GroupV<C>>) -> Seq<GroupV<C>>
    decreases gs.len(),
{
    if gs.len() == 0 {
        Seq::empty()
    } else if gs[0].flushable {
        kept_of(gs.drop_first())
    } else {
        seq![gs[0]] + kept_of(gs.drop_first())
    }
}

/// `allow_flush` at the spec level: mark the group for `d` flushable.
pub open spec fn allowed_of<C>(gs: Seq<GroupV<C>>, d: Seq<u8>) -> Seq<GroupV<C>> {
    if groups_have_digest(gs, d) {
        let i = group_index_of(gs, d);
        gs.update(i, GroupV { digest: gs[i].digest, callbacks: gs[i].callbacks, flushable: true })
    } else {
        gs
    }
}

/// What a flush leaves behind: only non-flushable groups, every one a group
/// that was already registered, and digests stay unique.
pub proof fn lemma_kept_of<C>(gs: Seq<GroupV<C>>)
    ensures
        forall|i: int| 0 <= i < kept_of(gs).len() ==> !(#[trigger] kept_of(gs)[i]).flushable,
        forall|i: int|
            0 <= i < kept_of(gs).len() ==> exists|j: int|
                0 <= j < gs.len() && #[trigger] kept_of(gs)[i] == gs[j],
        groups_unique(gs) ==> groups_unique(kept_of(gs)),
    decreases gs.len(),
{
    if gs.len() == 0 {
    } else {
        let rest = gs.drop_first();
        lemma_kept_of(rest);
        assert forall|i: int|
            0 <= i < kept_of(gs).len() implies exists|j: int|
            0 <= j < gs.len() && #[trigger] kept_of(gs)[i] == gs[j] by {
            if gs[0].flushable {
                assert(kept_of(gs)[i] == kept_of(rest)[i]);
                let j = choose|j: int| 0 <= j < rest.len() && kept_of(rest)[i] == rest[j];
                assert(kept_of(gs)[i] == gs[j + 1]);
            } else {
                if i == 0 {
                    assert(kept_of(gs)[0] == gs[0]);
                } else {
                    assert(kept_of(gs)[i] == kept_of(rest)[i - 1]);
                    let j = choose|j: int| 0 <= j < rest.len() && kept_of(rest)[i - 1] == rest[j];
                    assert(kept_of(gs)[i] == gs[j + 1]);
                }
            }
        }
        if groups_unique(gs) {
            assert(groups_unique(rest)) by {
                assert forall|a: int, b: int|
                    0 <= a < b < rest.len() implies (#[trigger] rest[a]).digest
                    != (#[trigger] rest[b]).digest by {
                    assert(rest[a] == gs[a + 1]);
                    assert(rest[b] == gs[b + 1]);
                }
            }
            if !gs[0].flushable {
                assert forall|a: int, b: int|
                    0 <= a < b < kept_of(gs).len() implies (#[trigger] kept_of(gs)[a]).digest
                    != (#[trigger] kept_of(gs)[b]).digest by {
                    if a == 0 {
                        assert(kept_of(gs)[b] == kept_of(rest)[b - 1]);
                        let j = choose|j: int|
                            0 <= j < rest.len() && kept_of(rest)[b - 1] == rest[j];
                        assert(kept_of(gs)[b] == gs[j + 1]);
                        assert(gs[0].digest != gs[j + 1].digest);
                    } else {
                        assert(kept_of(gs)[a] == kept_of(rest)[a - 1]);
                        assert(kept_of(gs)[b] == kept_of(rest)[b - 1]);
                    }
                }
            }
        }
    }
}

/// `c` is among the continuations of some flushable group of `gs`.
pub open spec fn from_flushable<C>(gs: Seq<GroupV<C>>, c: C) -> bool {
    exists|j: int|
        0 <= j < gs.len() && (#[trigger] gs[j]).flushable && gs[j].callbacks.contains(c)
}

/// Every released continuation comes from a flushable group.
pub proof fn lemma_fired_of<C>(gs: Seq<GroupV<C>>)
    ensures
        forall|i: int| #![trigger fired_of(gs)[i]]
            0 <= i < fired_of(gs).len() ==> from_flushable(gs, fired_of(gs)[i]),
    decreases gs.len(),
{
    if gs.len() == 0 {
    } else {
        let rest = gs.drop_first();
        lemma_fired_of(rest);
        assert forall|i: int| #![trigger fired_of(gs)[i]]
            0 <= i < fired_of(gs).len() implies from_flushable(gs, fired_of(gs)[i]) by {
            if gs[0].flushable {
                if i < gs[0].callbacks.len() {
                    assert(fired_of(gs)[i] == gs[0].callbacks[i]);
                    assert(gs[0].callbacks.contains(fired_of(gs)[i]));
                } else {
                    let ip = i - gs[0].callbacks.len();
                    assert(0 <= ip < fired_of(rest).len());
                    assert(fired_of(gs)[i] == fired_of(rest)[ip]);
                    assert(from_flushable(rest, fired_of(rest)[ip]));
                    let j = choose|j: int|
                        0 <= j < rest.len() && (#[trigger] rest[j]).flushable
                            && rest[j].callbacks.contains(fired_of(rest)[ip]);
                    assert(gs[j + 1].flushable && gs[j + 1].callbacks.contains(fired_of(gs)[i]));
                }
            } else {
                assert(fired_of(gs)[i] == fired_of(rest)[i]);
                assert(from_flushable(rest, fired_of(rest)[i]));
                let j = choose|j: int|
                    0 <= j < rest.len() && (#[trigger] rest[j]).flushable
                        && rest[j].callbacks.contains(fired_of(rest)[i]);
                assert(gs[j + 1].flushable && gs[j + 1].callbacks.contains(fired_of(gs)[i]));
            }
        }
    }
}

impl<C> CallbackRegistry<C> {
    /// An empty registry.
    pub fn new() -> (r: CallbackRegistry<C>)
        ensures
            r@ == Seq::<GroupV<C>>::empty(),
    {
        let r = CallbackRegistry { groups: Vec::new() };
        proof {
            assert(r@ =~= Seq::<GroupV<C>>::empty());
        }
        r
    }

    /// Number of digests with registered continuations.
    pub fn group_count(&self) -> (r: usize)
        ensures
            r == self@.len(),
    {
        self.groups.len()
    }

    /// Appends `c` to the list for `digest`, creating a non-flushable group
    /// when the digest has no group yet.
    pub fn add(&mut self, digest: Vec<u8>, c: C)
        requires
            groups_unique(old(self)@),
        ensures
            groups_unique(final(self)@),
            groups_have_digest(old(self)@, digest@) ==> final(self)@ == old(self)@.update(
                group_index_of(old(self)@, digest@),
                GroupV {
                    digest: digest@,
                    callbacks: old(self)@[group_index_of(old(self)@, digest@)].callbacks.push(c),
                    flushable: old(self)@[group_index_of(old(self)@, digest@)].flushable,
                },
            ),
            !groups_have_digest(old(self)@, digest@) ==> final(self)@ == old(self)@.push(
                GroupV { digest: digest@, callbacks: seq![c], flushable: false },
            ),
    {
        let ghost gs0 = self@;
        let n = self.groups.len();
        let mut i: usize = 0;
        while i < n
            invariant
                gs0 == old(self)@,
                self@ == gs0,
                groups_unique(gs0),
                n == self.groups@.len(),
                i <= n,
                forall|j: int| 0 <= j < i ==> (#[trigger] gs0[j]).digest != digest@,
            decreases n - i,
        {
            if bytes_eq(&self.groups[i].digest, &digest) {
                proof {
                    assert(gs0[i as int].digest == digest@);
                    assert(groups_have_digest(gs0, digest@));
                    let idx = group_index_of(gs0, digest@);
                    assert(0 <= idx < gs0.len() && gs0[idx].digest == digest@);
                    if idx < i as int {
                        assert(gs0[idx].digest != digest@);
                    } else if idx > i as int {
                        assert(gs0[idx].digest != gs0[i as int].digest);
                    }
                }
                let ghost gvec0 = self.groups@;
                let mut g = self.groups.remove(i);
                g.callbacks.push(c);
                self.groups.insert(i, g);
                proof {
                    assert(self.groups@ =~= gvec0.update(i as int, g));
                    assert(self@ =~= gs0.update(
                        i as int,
                        GroupV {
                            digest: digest@,
                            callbacks: gs0[i as int].callbacks.push(c),
                            flushable: gs0[i as int].flushable,
                        },
                    ));
                    assert forall|a: int, b: int|
                        0 <= a < b < self@.len() implies (#[trigger] self@[a]).digest
                        != (#[trigger] self@[b]).digest by {
                        assert(self@[a].digest == gs0[a].digest);
                        assert(self@[b].digest == gs0[b].digest);
                    }
                }
                return ;
            }
            i += 1;
        }
        proof {
            assert(!groups_have_digest(gs0, digest@));
        }
        let mut cbs: Vec<C> = Vec::new();
        cbs.push(c);
        let ghost cbs_view = cbs@;
        self.groups.push(CallbackGroup { digest, callbacks: cbs, flushable: false });
        proof {
            assert(cbs_view =~= seq![c]);
            assert(self@ =~= gs0.push(
                GroupV { digest: digest@, callbacks: seq![c], flushable: false },
            ));
        }
    }

    /// Marks the group for `digest` as eligible to flush; no-op when the
    /// digest has no registered continuations.
    pub fn allow_flush(&mut self, digest: &Vec<u8>)
        requires
            groups_unique(old(self)@),
        ensures
            groups_unique(final(self)@),
            final(self)@ == allowed_of(old(self)@, digest@),
    {
        let ghost gs0 = self@;
        let n = self.groups.len();
        let mut i: usize = 0;
        while i < n
            invariant
                gs0 == old(self)@,
                self@ == gs0,
                groups_unique(gs0),
                n == self.groups@.len(),
                i <= n,
                forall|j: int| 0 <= j < i ==> (#[trigger] gs0[j]).digest != digest@,
            decreases n - i,
        {
            if bytes_eq(&self.groups[i].digest, digest) {
                proof {
                    assert(gs0[i as int].digest == digest@);
                    assert(groups_have_digest(gs0, digest@));
                    let idx = group_index_of(gs0, digest@);
                    assert(0 <= idx < gs0.len() && gs0[idx].digest == digest@);
                    if idx < i as int {
                        assert(gs0[idx].digest != digest@);
                    } else if idx > i as int {
                        assert(gs0[idx].digest != gs0[i as int].digest);
                    }
                }
                let ghost gvec0 = self.groups@;
                let mut g = self.groups.remove(i);
                g.flushable = true;
                self.groups.insert(i, g);
                proof {
                    assert(self.groups@ =~= gvec0.update(i as int, g));
                    assert(self@ =~= gs0.update(
                        i as int,
                        GroupV {
                            digest: gs0[i as int].digest,
                            callbacks: gs0[i as int].callbacks,
                            flushable: true,
                        },
                    ));
                    assert(self@ =~= allowed_of(gs0, digest@));
                    assert forall|a: int, b: int|
                        0 <= a < b < self@.len() implies (#[trigger] self@[a]).digest
                        != (#[trigger] self@[b]).digest by {
                        assert(self@[a].digest == gs0[a].digest);
                        assert(self@[b].digest == gs0[b].digest);
                    }
                }
                return ;
            }
            i += 1;
        }
        proof {
            assert(!groups_have_digest(gs0, digest@));
        }
    }

    /// Removes every flushable group and returns its continuations, in
    /// creation order and, within a digest, registration order. Must be
    /// called only after a durable commit.
    pub fn flush_all(&mut self) -> (fired: Vec<C>)
        requires
            groups_unique(old(self)@),
        ensures
            groups_unique(final(self)@),
            final(self)@ == kept_of(old(self)@),
            fired@ == fired_of(old(self)@),
    {
        let ghost gs0 = self@;
        let mut kept: Vec<CallbackGroup<C>> = Vec::new();
        let mut fired: Vec<C> = Vec::new();
        proof {
            assert(kept@.map_values(|g: CallbackGroup<C>| g@) =~= Seq::<GroupV<C>>::empty());
            assert(Seq::<GroupV<C>>::empty() + kept_of(gs0) =~= kept_of(gs0));
            assert(Seq::<C>::empty() + fired_of(gs0) =~= fired_of(gs0));
        }
        while self.groups.len() > 0
            invariant
                gs0 == old(self)@,
                groups_unique(gs0),
                kept@.map_values(|g: CallbackGroup<C>| g@) + kept_of(self@) == kept_of(gs0),
                fired@ + fired_of(self@) == fired_of(gs0),
            decreases self.groups@.len(),
        {
            let ghost pre = self@;
            let ghost gvec = self.groups@;
            let g = self.groups.remove(0);
            proof {
                assert(self.groups@ =~= gvec.remove(0));
                assert(self@ =~= pre.drop_first()) by {
                    assert(self@.len() == pre.len() - 1);
                    assert forall|j: int| 0 <= j < self@.len() implies self@[j] == pre[j + 1] by {
                        assert(self.groups@[j] == gvec[j + 1]);
                    }
                }
                assert(g@ == pre[0]);
            }
            if g.flushable {
                let ghost fired_pre = fired@;
                let mut cbs = g.callbacks;
                let ghost cbs_view = cbs@;
                fired.append(&mut cbs);
                proof {
                    assert(fired@ == fired_pre + cbs_view);
                    assert(fired_of(pre) == pre[0].callbacks + fired_of(pre.drop_first()));
                    assert((fired_pre + cbs_view) + fired_of(self@) =~= fired_pre + (cbs_view
                        + fired_of(self@)));
                    assert(kept_of(pre) == kept_of(pre.drop_first()));
                }
            } else {
                let ghost kept_pre = kept@.map_values(|g: CallbackGroup<C>| g@);
                kept.push(g);
                proof {
                    assert(kept@.map_values(|g: CallbackGroup<C>| g@) =~= kept_pre.push(pre[0]));
                    assert(kept_of(pre) == seq![pre[0]] + kept_of(pre.drop_first()));
                    assert(kept_pre.push(pre[0]) + kept_of(self@) =~= kept_pre + (seq![pre[0]]
                        + kept_of(self@)));
                    assert(fired_of(pre) == fired_of(pre.drop_first()));
                }
            }
        }
        proof {
            assert(self@ =~= Seq::<GroupV<C>>::empty()) by {
                assert(self.groups@.len() == 0);
            }
            assert(kept_of(self@) == Seq::<GroupV<C>>::empty());
            assert(fired_of(self@) == Seq::<C>::empty());
            assert(kept@.map_values(|g: CallbackGroup<C>| g@) + Seq::<GroupV<C>>::empty()
                =~= kept@.map_values(|g: CallbackGroup<C>| g@));
            assert(fired@ + Seq::<C>::empty() =~= fired@);
        }
        self.groups = kept;
        proof {
            lemma_kept_of(gs0);
        }
        fired
    }
}

} // verus!
