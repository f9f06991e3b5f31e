//! An ordered key/value collection with unique `i64` keys.
//!
//! The pending queue is built on this: an association list kept strictly
//! sorted by key, so the minimum key is always at the front.

use vstd::prelude::*;

verus! {

/// Keys strictly increase along the sequence (so each key occurs once).
pub open spec fn kvs_sorted<V>(s: Seq<(i64, V)>) -> bool {
    forall|i: int, j: int| 0 <= i < j < s.len() ==> (#[trigger] s[i]).0 < (#[trigger] s[j]).0
}

/// Some binding in `s` carries the key `k`.
pub open spec fn kvs_has_key<V>(s: Seq<(i64, V)>, k: i64) -> bool {
    exists|i: int| 0 <= i < s.len() && (#[trigger] s[i]).0 == k
}

/// The index of the binding with key `k` (unique when the keys are sorted).
pub open spec fn kvs_index_of<V>(s: Seq<(i64, V)>, k: i64) -> int {
    choose|i: int| 0 <= i < s.len() && (#[trigger] s[i]).0 == k
}

/// In a sorted sequence a key occurs at exactly one index.
pub proof fn lemma_sorted_key_at_one_index<V>(s: Seq<(i64, V)>, i: int, j: int)
    requires
        kvs_sorted(s),
        0 <= i < s.len(),
        0 <= j < s.len(),
        s[i].0 == s[j].0,
    ensures
        i == j,
{
    if i < j {
        assert(s[i].0 < s[j].0);
    } else if j < i {
        assert(s[j].0 < s[i].0);
    }
}

/// An ordered map from `i64` keys to values: lookup of the minimum key,
/// in-order removal, and insertion that keeps the keys sorted and unique.
pub trait OrderedCollection<V>: Sized {
    spec fn kvs(&self) -> Seq<(i64, V)>;

    /// Inserts a binding for a key that is not yet present.
    fn insert_unique(&mut self, k: i64, v: V)
        requires
            kvs_sorted(old(self).kvs()),
            !kvs_has_key(old(self).kvs(), k),
        ensures
            kvs_sorted(final(self).kvs()),
            kvs_has_key(final(self).kvs(), k),
            exists|p: int|
                0 <= p <= old(self).kvs().len() && final(self).kvs() == old(self).kvs().insert(
                    p,
                    (k, v),
                ),
            (forall|i: int|
                0 <= i < old(self).kvs().len() ==> (#[trigger] old(self).kvs()[i]).0 < k)
                ==> final(self).kvs() == old(self).kvs().push((k, v)),
    ;

    /// Replaces the value bound to `k` when present; inserts it otherwise.
    fn update_value(&mut self, k: i64, v: V)
        requires
            kvs_sorted(old(self).kvs()),
        ensures
            kvs_sorted(final(self).kvs()),
            kvs_has_key(old(self).kvs(), k) ==> final(self).kvs() == old(self).kvs().update(
                kvs_index_of(old(self).kvs(), k),
                (k, v),
            ),
            !kvs_has_key(old(self).kvs(), k) ==> exists|p: int|
                0 <= p <= old(self).kvs().len() && final(self).kvs() == old(self).kvs().insert(
                    p,
                    (k, v),
                ),
            !kvs_has_key(old(self).kvs(), k) ==> (forall|i: int|
                0 <= i < old(self).kvs().len() ==> (#[trigger] old(self).kvs()[i]).0 < k)
                ==> final(self).kvs() == old(self).kvs().push((k, v)),
    ;

    /// The minimum key, when the collection is not empty.
    fn find_min(&self) -> (r: Option<i64>)
        requires
            kvs_sorted(self.kvs()),
        ensures
            match r {
                Option::Some(k) => self.kvs().len() > 0 && k == self.kvs()[0].0,
                Option::None => self.kvs().len() == 0,
            },
    ;

    /// Removes and returns the binding with the minimum key.
    fn pop_min(&mut self) -> (r: Option<(i64, V)>)
        requires
            kvs_sorted(old(self).kvs()),
        ensures
            kvs_sorted(final(self).kvs()),
            match r {
                Option::Some(kv) => old(self).kvs().len() > 0 && kv == old(self).kvs()[0]
                    && final(self).kvs() == old(self).kvs().subrange(
                    1,
                    old(self).kvs().len() as int,
                ),
                Option::None => old(self).kvs().len() == 0 && final(self).kvs() == old(self).kvs(),
            },
    ;

    /// The number of bindings.
    fn collection_len(&self) -> (r: usize)
        ensures
            r == self.kvs().len(),
    ;
}

impl<V> OrderedCollection<V> for Vec<(i64, V)> {
    open spec fn kvs(&self) -> Seq<(i64, V)> {
        self@
    }

    fn insert_unique(&mut self, k: i64, v: V) {
        self.update_value(k, v);
        proof {
            let s_old = old(self).kvs();
            let p = choose|p: int|
                0 <= p <= s_old.len() && self.kvs() == s_old.insert(p, (k, v));
            s_old.insert_ensures(p, (k, v));
            assert(self.kvs()[p] == (k, v));
            assert(kvs_has_key(self.kvs(), k));
        }
    }

    fn update_value(&mut self, k: i64, v: V) {
        let ghost s0 = self@;
        let mut i: usize = 0;
        while i < self.len()
            invariant
                kvs_sorted(s0),
                s0 == old(self)@,
                self@ == s0,
                i <= s0.len(),
                forall|j: int| 0 <= j < i ==> (#[trigger] s0[j]).0 < k,
            decreases s0.len() - i,
        {
            let ck = self[i].0;
            if ck == k {
                proof {
                    assert(0 <= i < s0.len() && s0[i as int].0 == k);
                    assert(kvs_has_key(s0, k));
                    let idx = kvs_index_of(s0, k);
                    assert(0 <= idx < s0.len() && s0[idx].0 == k);
                    lemma_sorted_key_at_one_index(s0, idx, i as int);
                }
                self[i] = (k, v);
                proof {
                    assert(self@ == s0.update(i as int, (k, v)));
                    assert forall|a: int, b: int|
                        0 <= a < b < self@.len() implies (#[trigger] self@[a]).0
                        < (#[trigger] self@[b]).0 by {
                        assert(s0[a].0 < s0[b].0);
                        if a == i {
                            assert(self@[a].0 == s0[a].0);
                        }
                        if b == i {
                            assert(self@[b].0 == s0[b].0);
                        }
                    }
                }
                return ;
            } else if ck > k {
                proof {
                    assert forall|j: int| 0 <= j < s0.len() implies (#[trigger] s0[j]).0 != k by {
                        if j < i {
                        } else if j > i {
                            assert(s0[i as int].0 < s0[j].0);
                        }
                    }
                    assert(!kvs_has_key(s0, k));
                }
                self.insert(i, (k, v));
                proof {
                    assert(self@ == s0.insert(i as int, (k, v)));
                    assert forall|a: int, b: int|
                        0 <= a < b < self@.len() implies (#[trigger] self@[a]).0
                        < (#[trigger] self@[b]).0 by {
                        let n = i as int;
                        if a < n && b < n {
                        } else if a == n {
                            assert(self@[b] == s0[b - 1]);
                            assert(s0[i as int].0 <= s0[b - 1].0);
                        } else if b == n {
                            assert(self@[a] == s0[a]);
                        } else if a > n && b > n {
                            assert(self@[a] == s0[a - 1]);
                            assert(self@[b] == s0[b - 1]);
                        } else {
                            assert(self@[a] == s0[a]);
                            assert(self@[b] == s0[b - 1]);
                            assert(a <= i - 1 || a == i);
                            if a < n {
                                assert(s0[a].0 < k) by {
                                    assert(a < i);
                                }
                                assert(k < s0[b - 1].0) by {
                                    if b - 1 > i {
                                        assert(s0[i as int].0 < s0[b - 1].0);
                                    }
                                }
                            }
                        }
                    }
                }
                return ;
            }
            i += 1;
        }
        proof {
            assert forall|j: int| 0 <= j < s0.len() implies (#[trigger] s0[j]).0 != k by {
                assert(s0[j].0 < k);
            }
            assert(!kvs_has_key(s0, k));
        }
        self.push((k, v));
        proof {
            assert(self@ == s0.push((k, v)));
            assert(self@ == s0.insert(s0.len() as int, (k, v))) by {
                assert(s0.push((k, v)) =~= s0.insert(s0.len() as int, (k, v)));
            }
            assert forall|a: int, b: int|
                0 <= a < b < self@.len() implies (#[trigger] self@[a]).0
                < (#[trigger] self@[b]).0 by {
                if b < s0.len() {
                } else {
                    assert(self@[b] == (k, v));
                    assert(s0[a].0 < k);
                }
            }
        }
    }

    fn find_min(&self) -> (r: Option<i64>) {
        if self.len() == 0 {
            Option::None
        } else {
            Option::Some(self[0].0)
        }
    }

    fn pop_min(&mut self) -> (r: Option<(i64, V)>) {
        if self.len() == 0 {
            Option::None
        } else {
            let kv = self.remove(0);
            proof {
                assert(self@ =~= old(self)@.subrange(1, old(self)@.len() as int));
                assert forall|a: int, b: int|
                    0 <= a < b < self@.len() implies (#[trigger] self@[a]).0
                    < (#[trigger] self@[b]).0 by {
                    assert(self@[a] == old(self)@[a + 1]);
                    assert(self@[b] == old(self)@[b + 1]);
                }
            }
            Option::Some(kv)
        }
    }

    fn collection_len(&self) -> (r: usize) {
        self.len()
    }
}

} // verus!
