//! Bounded cache of recently rejected transactions: repeated submissions of
//! a known-bad transaction are answered without re-validation.

use crate::tx_pool::Reject;
use crate::types::Byte32;
use vstd::prelude::*;

verus! {

/// The cache: rejection records in arrival order, oldest first, capped at
/// `limit`.
pub struct RecentReject {
    records: Vec<(Byte32, Reject)>,
    limit: usize,
}

/// Whether some record of `s` is keyed by `h`.
pub open spec fn reject_recorded(s: Seq<(Byte32, Reject)>, h: Byte32) -> bool {
    exists|i: int| 0 <= i < s.len() && s[i].0 == h
}

impl RecentReject {
    /// The records, oldest first, for specifications.
    pub closed spec fn records_view(self) -> Seq<(Byte32, Reject)> {
        self.records@
    }

    /// The soft bound on the cache.
    pub closed spec fn limit_view(self) -> int {
        self.limit as int
    }

    /// Well-formed: within its bound, and at most one record per hash.
    pub open spec fn wf(self) -> bool {
        &&& self.limit_view() >= 1
        &&& self.records_view().len() <= self.limit_view()
        &&& (forall|i: int, j: int|
            0 <= i < j < self.records_view().len() ==> self.records_view()[i].0
                != self.records_view()[j].0)
    }

    /// An empty cache bounded at `limit` records.
    pub fn new(limit: usize) -> (r: RecentReject)
        requires
            limit >= 1,
        ensures
            r.wf(),
            r.records_view() == Seq::<(Byte32, Reject)>::empty(),
    {
        let r = RecentReject { records: Vec::new(), limit };
        proof {
            assert(r.records_view() =~= Seq::<(Byte32, Reject)>::empty());
        }
        r
    }

    fn find(&self, h: &Byte32) -> (r: Option<usize>)
        ensures
            match r {
                Some(i) => 0 <= i < self.records_view().len() && self.records_view()[i as int].0
                    == h,
                None => !reject_recorded(self.records_view(), *h),
            },
    {
        let mut i: usize = 0;
        while i < self.records.len()
            invariant
                0 <= i <= self.records@.len(),
                forall|j: int| 0 <= j < i ==> self.records@[j].0 != h,
            decreases self.records@.len() - i,
        {
            if self.records[i].0 == *h {
                return Some(i);
            }
            i += 1;
        }
        None
    }

    /// The cached rejection for `h`, if one is recorded.
    pub fn get(&self, h: &Byte32) -> (r: Option<Reject>)
        requires
            self.wf(),
        ensures
            match r {
                Some(reject) => exists|i: int|
                    0 <= i < self.records_view().len() && #[trigger] self.records_view()[i] == (
                    *h,
                    reject,
                ),
                None => !reject_recorded(self.records_view(), *h),
            },
    {
        match self.find(h) {
            Some(i) => {
                proof {
                    assert(self.records_view()[i as int] == (*h, self.records_view()[i as int].1));
                }
                Some(self.records[i].1)
            }
            None => None,
        }
    }

    /// Record a rejection; a hash already recorded keeps its first reason,
    /// and when the cache is full the oldest record makes room for the new
    /// one.
    pub fn put(&mut self, h: Byte32, reject: Reject)
        requires
            old(self).wf(),
        ensures
            final(self).wf(),
            final(self).limit_view() == old(self).limit_view(),
            reject_recorded(final(self).records_view(), h),
            reject_recorded(old(self).records_view(), h) ==> final(self).records_view() == old(
                self,
            ).records_view(),
            !reject_recorded(old(self).records_view(), h) && old(self).records_view().len() < old(
                self,
            ).limit_view() ==> final(self).records_view() == old(self).records_view().push(
                (h, reject),
            ),
            !reject_recorded(old(self).records_view(), h) && old(self).records_view().len() >= old(
                self,
            ).limit_view() ==> final(self).records_view() == old(self).records_view().subrange(
                1,
                old(self).records_view().len() as int,
            ).push((h, reject)),
    {
        match self.find(&h) {
            Some(_) => {}
            None => {
                let ghost r0 = self.records@;
                if self.records.len() >= self.limit {
                    self.records.remove(0);
                    proof {
                        assert(self.records@ =~= r0.subrange(1, r0.len() as int));
                        assert forall|i: int, j: int|
                            0 <= i < j < self.records@.len() implies self.records@[i].0
                            != self.records@[j].0 by {
                            assert(self.records@[i] == r0[i + 1] && self.records@[j] == r0[j + 1]);
                        }
                    }
                }
                let ghost r1 = self.records@;
                self.records.push((h, reject));
                proof {
                    assert(self.records@[self.records@.len() - 1] == (h, reject));
                    assert forall|i: int, j: int|
                        0 <= i < j < self.records@.len() implies self.records@[i].0
                        != self.records@[j].0 by {
                        if j < r1.len() {
                            assert(self.records@[i] == r1[i] && self.records@[j] == r1[j]);
                        } else {
                            assert(self.records@[i] == r1[i]);
                            if r1[i].0 == h {
                                if r1.len() < r0.len() {
                                    assert(r1[i] == r0[i + 1]);
                                    assert(reject_recorded(r0, h));
                                } else {
                                    assert(r1 == r0);
                                    assert(reject_recorded(r0, h));
                                }
                            }
                        }
                    }
                }
            }
        }
    }

    /// Number of cached rejections.
    pub fn len(&self) -> (r: usize)
        ensures
            r == self.records_view().len(),
    {
        self.records.len()
    }
}

} // verus!
