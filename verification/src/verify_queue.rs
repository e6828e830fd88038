//! Bounded queue feeding the transaction verifier: two priority tiers,
//! first-in-first-out within each, and back-pressure instead of blocking.

use crate::types::ProposalShortId;
use vstd::prelude::*;

verus! {

/// How urgently an entry should be verified.
#[derive(Clone, Copy, Debug, PartialEq, Eq, Structural)]
pub enum VerifyPriority {
    /// Verified before anything normal.
    HighPriority,
    /// The common tier.
    Normal,
    /// Parked until the queue is resumed.
    Suspended,
}

/// The queue: three tiers of transaction ids, oldest first, bounded
/// together; suspended entries wait until they are resumed.
pub struct VerifyQueue {
    high: Vec<ProposalShortId>,
    normal: Vec<ProposalShortId>,
    suspended: Vec<ProposalShortId>,
    limit: usize,
}

impl VerifyQueue {
    /// The urgent tier, oldest first, for specifications.
    pub closed spec fn high_view(self) -> Seq<ProposalShortId> {
        self.high@
    }

    /// The common tier, oldest first, for specifications.
    pub closed spec fn normal_view(self) -> Seq<ProposalShortId> {
        self.normal@
    }

    /// The parked tier, oldest first, for specifications.
    pub closed spec fn suspended_view(self) -> Seq<ProposalShortId> {
        self.suspended@
    }

    /// The bound on both tiers together.
    pub closed spec fn limit_view(self) -> int {
        self.limit as int
    }

    /// Well-formed: the tiers together stay within the bound.
    pub open spec fn wf(self) -> bool {
        &&& self.limit_view() >= 1
        &&& self.high_view().len() + self.normal_view().len() + self.suspended_view().len()
            <= self.limit_view()
    }

    /// An empty queue bounded at `limit` entries.
    pub fn new(limit: usize) -> (r: VerifyQueue)
        requires
            limit >= 1,
        ensures
            r.wf(),
            r.high_view() == Seq::<ProposalShortId>::empty(),
            r.normal_view() == Seq::<ProposalShortId>::empty(),
            r.suspended_view() == Seq::<ProposalShortId>::empty(),
            r.limit_view() == limit as int,
    {
        let r = VerifyQueue { high: Vec::new(), normal: Vec::new(), suspended: Vec::new(), limit };
        proof {
            assert(r.high_view() =~= Seq::<ProposalShortId>::empty());
            assert(r.normal_view() =~= Seq::<ProposalShortId>::empty());
            assert(r.suspended_view() =~= Seq::<ProposalShortId>::empty());
        }
        r
    }

    /// Number of queued entries over all tiers.
    pub fn len(&self) -> (r: usize)
        requires
            self.wf(),
        ensures
            r == self.high_view().len() + self.normal_view().len() + self.suspended_view().len(),
    {
        self.high.len() + self.normal.len() + self.suspended.len()
    }

    /// Admit an entry at the back of its tier. A full queue admits nothing:
    /// the caller is told it is busy rather than being blocked.
    pub fn push(&mut self, id: ProposalShortId, priority: VerifyPriority) -> (r: bool)
        requires
            old(self).wf(),
        ensures
            final(self).wf(),
            final(self).limit_view() == old(self).limit_view(),
            r == (old(self).high_view().len() + old(self).normal_view().len() + old(
                self,
            ).suspended_view().len() < old(self).limit_view()),
            r && priority == VerifyPriority::HighPriority ==> final(self).high_view() == old(
                self,
            ).high_view().push(id) && final(self).normal_view() == old(self).normal_view()
                && final(self).suspended_view() == old(self).suspended_view(),
            r && priority == VerifyPriority::Normal ==> final(self).normal_view() == old(
                self,
            ).normal_view().push(id) && final(self).high_view() == old(self).high_view() && final(self).suspended_view() == old(self).suspended_view(),
            r && priority == VerifyPriority::Suspended ==> final(self).suspended_view() == old(
                self,
            ).suspended_view().push(id) && final(self).high_view() == old(self).high_view()
                && final(self).normal_view() == old(self).normal_view(),
            !r ==> final(self).high_view() == old(self).high_view() && final(self).normal_view()
                == old(self).normal_view() && final(self).suspended_view() == old(
                self,
            ).suspended_view(),
    {
        if self.high.len() + self.normal.len() + self.suspended.len() >= self.limit {
            return false;
        }
        match priority {
            VerifyPriority::HighPriority => self.high.push(id),
            VerifyPriority::Normal => self.normal.push(id),
            VerifyPriority::Suspended => self.suspended.push(id),
        }
        true
    }

    /// Hand out the next active entry: the oldest urgent one, else the
    /// oldest common one, else nothing; suspended entries wait.
    pub fn pop(&mut self) -> (r: Option<ProposalShortId>)
        requires
            old(self).wf(),
        ensures
            final(self).wf(),
            final(self).limit_view() == old(self).limit_view(),
            match r {
                Some(id) => {
                    if old(self).high_view().len() > 0 {
                        id == old(self).high_view()[0] && final(self).high_view() == old(
                            self,
                        ).high_view().subrange(1, old(self).high_view().len() as int) && final(self).normal_view() == old(self).normal_view()
                    } else {
                        old(self).normal_view().len() > 0 && id == old(self).normal_view()[0]
                            && final(self).normal_view() == old(self).normal_view().subrange(
                            1,
                            old(self).normal_view().len() as int,
                        ) && final(self).high_view() == old(self).high_view()
                    }
                },
                None => old(self).high_view().len() == 0 && old(self).normal_view().len() == 0
                    && final(self).high_view() == old(self).high_view() && final(self).normal_view() == old(self).normal_view(),
            },
            final(self).suspended_view() == old(self).suspended_view(),
    {
        if self.high.len() > 0 {
            let id = self.high.remove(0);
            proof {
                assert(self.high@ =~= old(self).high@.subrange(1, old(self).high@.len() as int));
            }
            Some(id)
        } else if self.normal.len() > 0 {
            let id = self.normal.remove(0);
            proof {
                assert(self.normal@ =~= old(self).normal@.subrange(
                    1,
                    old(self).normal@.len() as int,
                ));
            }
            Some(id)
        } else {
            None
        }
    }

    /// Wake every parked entry: suspended entries rejoin the back of the
    /// common tier, in their parked order.
    pub fn resume_suspended(&mut self)
        requires
            old(self).wf(),
        ensures
            final(self).wf(),
            final(self).limit_view() == old(self).limit_view(),
            final(self).high_view() == old(self).high_view(),
            final(self).normal_view() == old(self).normal_view() + old(self).suspended_view(),
            final(self).suspended_view() == Seq::<ProposalShortId>::empty(),
    {
        let ghost s0 = self.suspended@;
        let ghost n0 = self.normal@;
        while self.suspended.len() > 0
            invariant
                self.limit == old(self).limit,
                self.high@ == old(self).high@,
                self.high@.len() + self.normal@.len() + self.suspended@.len() <= self.limit,
                self.normal@ + self.suspended@ == n0 + s0,
            decreases self.suspended@.len(),
        {
            let ghost npre = self.normal@;
            let ghost spre = self.suspended@;
            let id = self.suspended.remove(0);
            self.normal.push(id);
            proof {
                assert(self.normal@ + self.suspended@ =~= npre + spre);
            }
        }
        proof {
            assert(self.suspended@ =~= Seq::<ProposalShortId>::empty());
            assert(self.normal@ =~= self.normal@ + self.suspended@);
        }
    }
}

} // verus!
