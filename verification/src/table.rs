//! Per-bitmask best-release table.
//!
//! Maps each opened-node bitmask seen during a search to the maximum
//! finalized release recorded for that exact bitmask.

use vstd::prelude::*;

verus! {

/// Mapping from opened-node bitmask to the best release recorded for it.
pub struct BestByMask {
    items: Vec<(u32, u64)>,
}

impl BestByMask {
    /// Number of bitmask entries.
    pub closed spec fn len(self) -> int {
        self.items@.len() as int
    }

    /// The `k`-th entry as a (bitmask, value) pair.
    pub closed spec fn entry(self, k: int) -> (u32, u64) {
        self.items@[k]
    }

    /// Each bitmask appears at most once.
    pub open spec fn wf(self) -> bool {
        forall|k1: int, k2: int|
            0 <= k1 < k2 < self.len() ==> (#[trigger] self.entry(k1)).0 != (
            #[trigger] self.entry(k2)).0
    }

    /// Whether bitmask `m` has an entry.
    pub open spec fn spec_has(self, m: u32) -> bool {
        exists|k: int| 0 <= k < self.len() && (#[trigger] self.entry(k)).0 == m
    }

    /// The value recorded for bitmask `m` (meaningful when `spec_has(m)`).
    pub open spec fn spec_get(self, m: u32) -> u64 {
        self.entry(choose|k: int| 0 <= k < self.len() && (#[trigger] self.entry(k)).0 == m).1
    }

    /// An entry's bitmask is recorded with that entry's value.
    pub proof fn lemma_entry(self, k: int)
        requires
            self.wf(),
            0 <= k < self.len(),
        ensures
            self.spec_has(self.entry(k).0),
            self.spec_get(self.entry(k).0) == self.entry(k).1,
    {
        assert(self.spec_has(self.entry(k).0));
        let k2 = choose|k2: int|
            0 <= k2 < self.len() && (#[trigger] self.entry(k2)).0 == self.entry(k).0;
        if k2 < k {
            assert(self.entry(k2).0 != self.entry(k).0);
        } else if k < k2 {
            assert(self.entry(k).0 != self.entry(k2).0);
        }
    }

    /// An empty table.
    pub fn new() -> (r: BestByMask)
        ensures
            r.wf(),
            r.len() == 0,
            forall|m: u32| !r.spec_has(m),
    {
        BestByMask { items: Vec::new() }
    }

    /// Number of entries.
    pub fn count(&self) -> (r: usize)
        ensures
            r == self.len(),
    {
        self.items.len()
    }

    /// The `k`-th entry.
    pub fn entry_at(&self, k: usize) -> (r: (u32, u64))
        requires
            0 <= k < self.len(),
        ensures
            r == self.entry(k as int),
    {
        self.items[k]
    }

    /// Looks a bitmask up.
    pub fn get(&self, m: u32) -> (r: Option<u64>)
        requires
            self.wf(),
        ensures
            r is Some <==> self.spec_has(m),
            r is Some ==> r->0 == self.spec_get(m),
    {
        let end = self.items.len();
        for k in 0..end
            invariant
                end == self.len(),
                self.wf(),
                forall|kk: int| 0 <= kk < k ==> (#[trigger] self.entry(kk)).0 != m,
        {
            if self.items[k].0 == m {
                proof {
                    self.lemma_entry(k as int);
                }
                return Some(self.items[k].1);
            }
        }
        None
    }

    /// Records value `v` for bitmask `m`, keeping the maximum of `v` and any
    /// value already recorded for `m`.
    pub fn set_max(&mut self, m: u32, v: u64)
        requires
            old(self).wf(),
        ensures
            final(self).wf(),
            forall|x: u32|
                #[trigger] final(self).spec_has(x) == (old(self).spec_has(x) || x == m),
            final(self).spec_get(m) == if old(self).spec_has(m) {
                if v > old(self).spec_get(m) {
                    v
                } else {
                    old(self).spec_get(m)
                }
            } else {
                v
            },
            forall|x: u32|
                x != m && old(self).spec_has(x) ==> #[trigger] final(self).spec_get(x) == old(
                self,
            ).spec_get(x),
    {
        let end = self.items.len();
        for k in 0..end
            invariant
                end == self.len(),
                self.wf(),
                *self == *old(self),
                forall|kk: int| 0 <= kk < k ==> (#[trigger] self.entry(kk)).0 != m,
        {
            if self.items[k].0 == m {
                proof {
                    self.lemma_entry(k as int);
                }
                if v > self.items[k].1 {
                    let ghost prior = *self;
                    self.items[k] = (m, v);
                    proof {
                        assert forall|x: u32| #[trigger] self.spec_has(x) == (prior.spec_has(x)
                            || x == m) by {
                            if self.spec_has(x) {
                                let kk = choose|kk: int|
                                    0 <= kk < self.len() && (#[trigger] self.entry(kk)).0 == x;
                                assert(prior.entry(if kk == k { k as int } else { kk }).0 == x);
                            }
                            if prior.spec_has(x) {
                                let kk = choose|kk: int|
                                    0 <= kk < prior.len() && (#[trigger] prior.entry(kk)).0 == x;
                                assert(self.entry(if kk == k { k as int } else { kk }).0 == x);
                            }
                        }
                        assert forall|k1: int, k2: int| 0 <= k1 < k2 < self.len() implies (
                        #[trigger] self.entry(k1)).0 != (#[trigger] self.entry(k2)).0 by {
                            assert(prior.entry(k1).0 != prior.entry(k2).0);
                            assert(k1 == k ==> self.entry(k1).0 == prior.entry(k1).0);
                            assert(k2 == k ==> self.entry(k2).0 == prior.entry(k2).0);
                        }
                        assert(self.entry(k as int).0 == m);
                        self.lemma_entry(k as int);
                        assert forall|x: u32| x != m && prior.spec_has(x) implies #[trigger] self
                            .spec_get(x) == prior.spec_get(x) by {
                            let kk = choose|kk: int|
                                0 <= kk < prior.len() && (#[trigger] prior.entry(kk)).0 == x;
                            assert(self.entry(kk).0 == x);
                            self.lemma_entry(kk);
                            prior.lemma_entry(kk);
                        }
                    }
                }
                return ;
            }
        }
        let ghost prior = *self;
        self.items.push((m, v));
        proof {
            assert forall|k1: int, k2: int| 0 <= k1 < k2 < self.len() implies (
            #[trigger] self.entry(k1)).0 != (#[trigger] self.entry(k2)).0 by {
                if k2 == self.len() - 1 {
                    assert(prior.entry(k1).0 != m);
                } else {
                    assert(prior.entry(k1).0 != prior.entry(k2).0);
                }
            }
            assert(self.entry(self.len() - 1) == (m, v));
            self.lemma_entry(self.len() - 1);
            assert forall|x: u32| #[trigger] self.spec_has(x) == (prior.spec_has(x) || x == m) by {
                if self.spec_has(x) && x != m {
                    let kk = choose|kk: int|
                        0 <= kk < self.len() && (#[trigger] self.entry(kk)).0 == x;
                    assert(prior.entry(kk).0 == x);
                }
                if prior.spec_has(x) {
                    let kk = choose|kk: int|
                        0 <= kk < prior.len() && (#[trigger] prior.entry(kk)).0 == x;
                    assert(self.entry(kk).0 == x);
                }
            }
            assert forall|x: u32| x != m && prior.spec_has(x) implies #[trigger] self.spec_get(x)
                == prior.spec_get(x) by {
                let kk = choose|kk: int|
                    0 <= kk < prior.len() && (#[trigger] prior.entry(kk)).0 == x;
                assert(self.entry(kk).0 == x);
                self.lemma_entry(kk);
                prior.lemma_entry(kk);
            }
        }
    }
}

} // verus!
