//! The pending-call table: the map from an in-flight request's correlation
//! id to the completion token that will deliver its response.
//!
//! An entry exists from the moment a request is queued for writing until a
//! response with that id is decoded or the connection is torn down. The table
//! never holds two entries with one id.

use vstd::prelude::*;

verus! {

/// Does the sequence hold an entry for `id`?
pub open spec fn has_id(s: Seq<(u32, u64)>, id: u32) -> bool {
    exists|i: int| 0 <= i < s.len() && s[i].0 == id
}

/// The index of the entry for `id`.
pub open spec fn idx_of(s: Seq<(u32, u64)>, id: u32) -> int
    recommends
        has_id(s, id),
{
    choose|i: int| 0 <= i < s.len() && s[i].0 == id
}

/// The token registered under `id`.
pub open spec fn token_of(s: Seq<(u32, u64)>, id: u32) -> u64
    recommends
        has_id(s, id),
{
    s[idx_of(s, id)].1
}

/// No two entries share an id.
pub open spec fn unique_ids(s: Seq<(u32, u64)>) -> bool {
    forall|i: int, j: int| 0 <= i < j < s.len() ==> (#[trigger] s[i]).0 != (#[trigger] s[j]).0
}

/// The pending-call table, insertion-ordered.
pub struct PendingTable {
    entries: Vec<(u32, u64)>,
}

impl PendingTable {
    /// The entries, oldest first.
    pub closed spec fn view_entries(&self) -> Seq<(u32, u64)> {
        self.entries@
    }

    pub open spec fn wf(&self) -> bool {
        unique_ids(self.view_entries())
    }

    /// An empty table.
    pub fn new() -> (r: PendingTable)
        ensures
            r.wf(),
            r.view_entries() == Seq::<(u32, u64)>::empty(),
    {
        PendingTable { entries: Vec::new() }
    }

    /// How many calls are in flight.
    pub fn len(&self) -> (r: usize)
        ensures
            r == self.view_entries().len(),
    {
        self.entries.len()
    }

    /// Register `token` under `id`. A fresh id is appended; an id already
    /// present — possible only after correlation-id wraparound — has its
    /// token replaced, exactly as a map insert would.
    #[verifier::loop_isolation(false)]
    pub fn insert(&mut self, id: u32, token: u64)
        requires
            old(self).wf(),
        ensures
            final(self).wf(),
            if has_id(old(self).view_entries(), id) {
                final(self).view_entries() == old(self).view_entries().update(
                    idx_of(old(self).view_entries(), id),
                    (id, token),
                )
            } else {
                final(self).view_entries() == old(self).view_entries().push((id, token))
            },
            has_id(final(self).view_entries(), id),
            token_of(final(self).view_entries(), id) == token,
    {
        let ghost s0 = self.entries@;
        let n = self.entries.len();
        let mut i: usize = 0;
        while i < n
            invariant
                i <= n,
                n == self.entries@.len(),
                self.entries@ == s0,
                unique_ids(s0),
                forall|j: int| 0 <= j < i ==> (#[trigger] s0[j]).0 != id,
            decreases n - i,
        {
            if self.entries[i].0 == id {
                proof {
                    assert(has_id(s0, id));
                    assert(idx_of(s0, id) == i as int) by {
                        let k = idx_of(s0, id);
                        if k < i as int {
                            assert(s0[k].0 != id);
                        } else if k > i as int {
                            assert(s0[i as int].0 != s0[k].0);
                        }
                    }
                }
                self.entries.set(i, (id, token));
                proof {
                    assert(unique_ids(self.entries@)) by {
                        assert forall|p: int, q: int|
                            0 <= p < q < self.entries@.len() implies (
                        #[trigger] self.entries@[p]).0 != (#[trigger] self.entries@[q]).0 by {
                            assert(s0[p].0 == self.entries@[p].0 || p == i as int);
                            assert(s0[q].0 == self.entries@[q].0 || q == i as int);
                        }
                    }
                    assert(token_of(self.entries@, id) == token) by {
                        let k = idx_of(self.entries@, id);
                        assert(self.entries@[i as int].0 == id);
                        assert(has_id(self.entries@, id));
                        if k != i as int {
                            assert(s0[k] == self.entries@[k]);
                            if k < i as int {
                                assert(s0[k].0 != id);
                            } else {
                                assert(s0[i as int].0 != s0[k].0);
                            }
                        }
                    }
                }
                return ;
            }
            i = i + 1;
        }
        self.entries.push((id, token));
        proof {
            assert(!has_id(s0, id));
            let s1 = self.entries@;
            assert(unique_ids(s1)) by {
                assert forall|p: int, q: int|
                    0 <= p < q < s1.len() implies (#[trigger] s1[p]).0 != (#[trigger] s1[q]).0 by {
                    if q == s1.len() - 1 {
                        assert(s1[p] == s0[p]);
                        assert(!(0 <= p < s0.len() && s0[p].0 == id));
                    } else {
                        assert(s1[p] == s0[p] && s1[q] == s0[q]);
                    }
                }
            }
            assert(s1[s1.len() - 1].0 == id);
            assert(has_id(s1, id));
            assert(token_of(s1, id) == token) by {
                let k = idx_of(s1, id);
                if k != s1.len() - 1 {
                    assert(s1[k] == s0[k]);
                    assert(!(0 <= k < s0.len() && s0[k].0 == id));
                }
            }
        }
    }

    /// Take the entry for `id` out of the table, handing back its token.
    /// Every other entry stays, in order.
    #[verifier::loop_isolation(false)]
    pub fn remove(&mut self, id: u32) -> (r: Option<u64>)
        requires
            old(self).wf(),
        ensures
            final(self).wf(),
            match r {
                Some(token) => has_id(old(self).view_entries(), id) && token == token_of(
                    old(self).view_entries(),
                    id,
                ) && final(self).view_entries() == old(self).view_entries().remove(
                    idx_of(old(self).view_entries(), id),
                ),
                None => !has_id(old(self).view_entries(), id) && final(self).view_entries() == old(
                    self,
                ).view_entries(),
            },
    {
        let ghost s0 = self.entries@;
        let n = self.entries.len();
        let mut i: usize = 0;
        while i < n
            invariant
                i <= n,
                n == self.entries@.len(),
                self.entries@ == s0,
                unique_ids(s0),
                forall|j: int| 0 <= j < i ==> (#[trigger] s0[j]).0 != id,
            decreases n - i,
        {
            if self.entries[i].0 == id {
                let entry = self.entries.remove(i);
                proof {
                    assert(has_id(s0, id));
                    assert(idx_of(s0, id) == i as int) by {
                        let k = idx_of(s0, id);
                        if k < i as int {
                            assert(s0[k].0 != id);
                        } else if k > i as int {
                            assert(s0[i as int].0 != s0[k].0);
                        }
                    }
                    assert(unique_ids(self.entries@)) by {
                        assert forall|p: int, q: int|
                            0 <= p < q < self.entries@.len() implies (
                        #[trigger] self.entries@[p]).0 != (#[trigger] self.entries@[q]).0 by {
                            let pp = if p < i as int {
                                p
                            } else {
                                p + 1
                            };
                            let qq = if q < i as int {
                                q
                            } else {
                                q + 1
                            };
                            assert(self.entries@[p] == s0[pp]);
                            assert(self.entries@[q] == s0[qq]);
                        }
                    }
                }
                return Some(entry.1);
            }
            i = i + 1;
        }
        proof {
            assert(!has_id(s0, id));
        }
        None
    }

    /// Empty the table, handing back every entry in order; used when the
    /// connection is torn down and each pending call must be failed.
    pub fn drain(&mut self) -> (r: Vec<(u32, u64)>)
        ensures
            r@ == old(self).view_entries(),
            final(self).view_entries() == Seq::<(u32, u64)>::empty(),
            final(self).wf(),
    {
        let mut taken = PendingTable { entries: Vec::new() };
        core::mem::swap(&mut taken, self);
        proof {
            assert(self.entries@ =~= Seq::<(u32, u64)>::empty());
        }
        taken.entries
    }
}

/// Removing one id leaves every other id in place, with its token unchanged:
/// the guarantee that lets responses resolve in any order without disturbing
/// one another.
pub proof fn lemma_remove_preserves_others(s: Seq<(u32, u64)>, id: u32, other: u32)
    requires
        unique_ids(s),
        has_id(s, id),
        other != id,
    ensures
        has_id(s.remove(idx_of(s, id)), other) == has_id(s, other),
        has_id(s, other) ==> token_of(s.remove(idx_of(s, id)), other) == token_of(s, other),
        unique_ids(s.remove(idx_of(s, id))),
{
    let k = idx_of(s, id);
    let t = s.remove(k);
    assert forall|p: int, q: int|
        0 <= p < q < t.len() implies (#[trigger] t[p]).0 != (#[trigger] t[q]).0 by {
        let pp = if p < k {
            p
        } else {
            p + 1
        };
        let qq = if q < k {
            q
        } else {
            q + 1
        };
        assert(t[p] == s[pp]);
        assert(t[q] == s[qq]);
    }
    if has_id(s, other) {
        let j = idx_of(s, other);
        assert(s[j].0 == other);
        assert(j != k);
        let jj = if j < k {
            j
        } else {
            j - 1
        };
        assert(t[jj] == s[j]);
        assert(has_id(t, other));
        let j2 = idx_of(t, other);
        assert(t[j2].0 == other);
        let j2o = if j2 < k {
            j2
        } else {
            j2 + 1
        };
        assert(t[j2] == s[j2o]);
        if j2o != j {
            assert(s[j2o].0 != s[j].0 || !unique_ids(s) || j2o == j);
            if j2o < j {
                assert(s[j2o].0 != s[j].0);
            } else {
                assert(s[j].0 != s[j2o].0);
            }
        }
        assert(token_of(t, other) == token_of(s, other));
    } else {
        if has_id(t, other) {
            let j2 = idx_of(t, other);
            let j2o = if j2 < k {
                j2
            } else {
                j2 + 1
            };
            assert(t[j2] == s[j2o]);
            assert(has_id(s, other));
        }
    }
}

} // verus!
