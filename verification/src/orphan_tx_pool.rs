//! Pool of orphan transactions: transactions whose input cells are not
//! resolved yet. They wait, keyed by hash, until an outpoint they miss
//! becomes available or their time runs out.

use crate::tx_pool::{Reject, Transaction};
use crate::types::{Byte32, OutPoint};
use vstd::prelude::*;

verus! {

/// One waiting transaction with its origin and its deadline.
pub struct OrphanTx {
    pub tx: Transaction,
    pub peer: u64,
    pub expires_at_ms: u64,
}

/// Whether some entry of `s` carries the transaction with hash `h`.
pub open spec fn orphan_has(s: Seq<OrphanTx>, h: Byte32) -> bool {
    exists|i: int| 0 <= i < s.len() && s[i].tx.hash == h
}

/// The index of the entry carrying hash `h` (hashes are unique).
pub open spec fn orphan_idx(s: Seq<OrphanTx>, h: Byte32) -> int {
    choose|i: int| 0 <= i < s.len() && s[i].tx.hash == h
}

/// Whether some entry of `s` both carries hash `h` and spends `op`.
pub open spec fn spender_recorded(s: Seq<OrphanTx>, op: OutPoint, h: Byte32) -> bool {
    exists|w: int| 0 <= w < s.len() && (#[trigger] s[w]).tx.hash == h && s[w].tx.inputs@.contains(op)
}

/// The first `n` entries of `s` that are still fresh at `now_ms`, in order.
pub open spec fn fresh_prefix(s: Seq<OrphanTx>, now_ms: u64, n: int) -> Seq<OrphanTx>
    decreases n,
{
    if n <= 0 {
        Seq::empty()
    } else if s[n - 1].expires_at_ms >= now_ms {
        fresh_prefix(s, now_ms, n - 1).push(s[n - 1])
    } else {
        fresh_prefix(s, now_ms, n - 1)
    }
}

/// The hashes of the first `n` entries of `s` that have expired at
/// `now_ms`, in order, each paired with the expiry rejection.
pub open spec fn expired_prefix(s: Seq<OrphanTx>, now_ms: u64, n: int) -> Seq<(Byte32, Reject)>
    decreases n,
{
    if n <= 0 {
        Seq::empty()
    } else if s[n - 1].expires_at_ms < now_ms {
        expired_prefix(s, now_ms, n - 1).push((s[n - 1].tx.hash, Reject::Expired))
    } else {
        expired_prefix(s, now_ms, n - 1)
    }
}

/// The pool: waiting transactions in arrival order, capped at `capacity`.
pub struct OrphanTxPool {
    entries: Vec<OrphanTx>,
    capacity: usize,
}

impl OrphanTxPool {
    /// The waiting transactions, oldest first, for specifications.
    pub closed spec fn entries_view(self) -> Seq<OrphanTx> {
        self.entries@
    }

    /// The cap on the pool.
    pub closed spec fn capacity_view(self) -> int {
        self.capacity as int
    }

    /// Well-formed: within its cap, one entry per hash.
    pub open spec fn wf(self) -> bool {
        &&& self.capacity_view() >= 1
        &&& self.entries_view().len() <= self.capacity_view()
        &&& (forall|i: int, j: int|
            0 <= i < j < self.entries_view().len() ==> self.entries_view()[i].tx.hash
                != self.entries_view()[j].tx.hash)
    }

    /// An empty pool capped at `capacity` transactions.
    pub fn new(capacity: usize) -> (r: OrphanTxPool)
        requires
            capacity >= 1,
        ensures
            r.wf(),
            r.entries_view() == Seq::<OrphanTx>::empty(),
    {
        let r = OrphanTxPool { entries: Vec::new(), capacity };
        proof {
            assert(r.entries_view() =~= Seq::<OrphanTx>::empty());
        }
        r
    }

    fn find(&self, h: &Byte32) -> (r: Option<usize>)
        ensures
            match r {
                Some(i) => 0 <= i < self.entries_view().len() && self.entries_view()[i as int]
                    .tx.hash == h,
                None => !orphan_has(self.entries_view(), *h),
            },
    {
        let mut i: usize = 0;
        while i < self.entries.len()
            invariant
                0 <= i <= self.entries@.len(),
                forall|j: int| 0 <= j < i ==> self.entries@[j].tx.hash != h,
            decreases self.entries@.len() - i,
        {
            if self.entries[i].tx.hash == *h {
                return Some(i);
            }
            i += 1;
        }
        None
    }

    /// Whether a transaction with hash `h` waits here.
    pub fn contains_key(&self, h: &Byte32) -> (r: bool)
        ensures
            r == orphan_has(self.entries_view(), *h),
    {
        self.find(h).is_some()
    }

    /// Number of waiting transactions.
    pub fn len(&self) -> (r: usize)
        ensures
            r == self.entries_view().len(),
    {
        self.entries.len()
    }

    /// Let a transaction wait. A duplicate is refused; a full pool makes
    /// room by dropping its oldest entry.
    pub fn add_orphan_tx(&mut self, orphan: OrphanTx) -> (r: Result<(), Reject>)
        requires
            old(self).wf(),
        ensures
            final(self).wf(),
            final(self).capacity_view() == old(self).capacity_view(),
            match r {
                Ok(()) => {
                    &&& orphan_has(final(self).entries_view(), orphan.tx.hash)
                    &&& !orphan_has(old(self).entries_view(), orphan.tx.hash)
                    &&& (old(self).entries_view().len() < old(self).capacity_view() ==> final(self).entries_view() == old(self).entries_view().push(orphan))
                    &&& (old(self).entries_view().len() >= old(self).capacity_view() ==> final(self).entries_view() == old(self).entries_view().subrange(
                        1,
                        old(self).entries_view().len() as int,
                    ).push(orphan))
                },
                Err(Reject::Duplicate) => orphan_has(old(self).entries_view(), orphan.tx.hash)
                    && final(self).entries_view() == old(self).entries_view(),
                Err(_) => false,
            },
    {
        if self.contains_key(&orphan.tx.hash) {
            return Err(Reject::Duplicate);
        }
        let ghost e0 = self.entries@;
        if self.entries.len() >= self.capacity {
            self.entries.remove(0);
            proof {
                assert(self.entries@ =~= e0.subrange(1, e0.len() as int));
                assert forall|i: int, j: int|
                    0 <= i < j < self.entries@.len() implies self.entries@[i].tx.hash
                    != self.entries@[j].tx.hash by {
                    assert(self.entries@[i] == e0[i + 1] && self.entries@[j] == e0[j + 1]);
                }
            }
        }
        let ghost e1 = self.entries@;
        let ghost h = orphan.tx.hash;
        self.entries.push(orphan);
        proof {
            assert(self.entries@[self.entries@.len() - 1].tx.hash == h);
            assert forall|i: int, j: int|
                0 <= i < j < self.entries@.len() implies self.entries@[i].tx.hash
                != self.entries@[j].tx.hash by {
                if j < e1.len() {
                    assert(self.entries@[i] == e1[i] && self.entries@[j] == e1[j]);
                } else {
                    assert(self.entries@[i] == e1[i]);
                    if e1[i].tx.hash == h {
                        if e1.len() < e0.len() {
                            assert(e1[i] == e0[i + 1]);
                            assert(orphan_has(e0, h));
                        } else {
                            assert(e1 == e0);
                            assert(orphan_has(e0, h));
                        }
                    }
                }
            }
        }
        Ok(())
    }

    /// Take the transaction with hash `h` out, if it waits here.
    pub fn remove_orphan_tx(&mut self, h: &Byte32) -> (r: Option<OrphanTx>)
        requires
            old(self).wf(),
        ensures
            final(self).wf(),
            final(self).capacity_view() == old(self).capacity_view(),
            !orphan_has(final(self).entries_view(), *h),
            match r {
                Some(o) => o.tx.hash == h && orphan_has(old(self).entries_view(), *h) && o == old(
                    self,
                ).entries_view()[orphan_idx(old(self).entries_view(), *h)] && final(self).entries_view() == old(self).entries_view().remove(
                    orphan_idx(old(self).entries_view(), *h),
                ),
                None => !orphan_has(old(self).entries_view(), *h) && final(self).entries_view()
                    == old(self).entries_view(),
            },
    {
        let ghost e0 = self.entries@;
        match self.find(h) {
            Some(i) => {
                let o = self.entries.remove(i);
                proof {
                    assert(o == e0[i as int]);
                    let ci = orphan_idx(e0, *h);
                    assert(0 <= ci < e0.len() && e0[ci].tx.hash == *h) by {
                        assert(e0[i as int].tx.hash == *h);
                    }
                    assert(ci == i) by {
                        if ci != i {
                            assert(e0[ci].tx.hash != e0[i as int].tx.hash);
                        }
                    }
                    assert forall|a: int, b: int|
                        0 <= a < b < self.entries@.len() implies self.entries@[a].tx.hash
                        != self.entries@[b].tx.hash by {
                        let a2: int = if a < i {
                            a
                        } else {
                            a + 1
                        };
                        let b2: int = if b < i {
                            b
                        } else {
                            b + 1
                        };
                        assert(self.entries@[a] == e0[a2] && self.entries@[b] == e0[b2]);
                    }
                    assert forall|j: int| 0 <= j < self.entries@.len() implies
                        self.entries@[j].tx.hash != h by {
                        if j < i {
                            assert(self.entries@[j] == e0[j]);
                            assert(e0[j].tx.hash != e0[i as int].tx.hash);
                        } else {
                            assert(self.entries@[j] == e0[j + 1]);
                            assert(e0[j + 1].tx.hash != e0[i as int].tx.hash);
                        }
                    }
                }
                Some(o)
            }
            None => None,
        }
    }

    /// The hashes of the waiting transactions that spend `op`: once the
    /// outpoint becomes available, these are re-examined.
    pub fn find_by_previous(&self, op: &OutPoint) -> (r: Vec<Byte32>)
        ensures
            forall|k: int|
                0 <= k < r@.len() ==> spender_recorded(self.entries_view(), *op, #[trigger] r@[k]),
            forall|i: int|
                0 <= i < self.entries_view().len() && (#[trigger] self.entries_view()[i])
                    .tx.inputs@.contains(*op) ==> r@.contains(self.entries_view()[i].tx.hash),
    {
        let ghost s = self.entries@;
        let mut out: Vec<Byte32> = Vec::new();
        let mut i: usize = 0;
        while i < self.entries.len()
            invariant
                s == self.entries@,
                0 <= i <= s.len(),
                forall|k: int|
                    0 <= k < out@.len() ==> spender_recorded(s, *op, #[trigger] out@[k]),
                forall|j: int|
                    0 <= j < i && (#[trigger] s[j]).tx.inputs@.contains(*op) ==> out@.contains(
                        s[j].tx.hash,
                    ),
            decreases s.len() - i,
        {
            let mut k: usize = 0;
            let mut spends_it = false;
            while k < self.entries[i].tx.inputs.len()
                invariant
                    s == self.entries@,
                    0 <= (i as int) < s.len(),
                    0 <= k <= s[i as int].tx.inputs@.len(),
                    spends_it ==> s[i as int].tx.inputs@.contains(*op),
                    !spends_it ==> forall|a: int|
                        0 <= a < k ==> s[i as int].tx.inputs@[a] != op,
                    forall|kk: int|
                        0 <= kk < out@.len() ==> spender_recorded(s, *op, #[trigger] out@[kk]),
                    forall|j: int|
                        0 <= j < i && (#[trigger] s[j]).tx.inputs@.contains(*op) ==> out@.contains(
                            s[j].tx.hash,
                        ),
                decreases s[i as int].tx.inputs@.len() - k,
            {
                if self.entries[i].tx.inputs[k] == *op {
                    proof {
                        assert(s[i as int].tx.inputs@[k as int] == *op);
                    }
                    spends_it = true;
                }
                k += 1;
            }
            if spends_it {
                let ghost opre = out@;
                out.push(self.entries[i].tx.hash);
                proof {
                    assert(out@[out@.len() - 1] == s[i as int].tx.hash);
                    assert forall|j: int|
                        0 <= j <= i && (#[trigger] s[j]).tx.inputs@.contains(*op) implies
                        out@.contains(s[j].tx.hash) by {
                        if j < i {
                            assert(opre.contains(s[j].tx.hash));
                            let w = choose|w: int| 0 <= w < opre.len() && opre[w] == s[j].tx.hash;
                            assert(out@[w] == s[j].tx.hash);
                        }
                    }
                    assert forall|k: int|
                        0 <= k < out@.len() implies spender_recorded(
                        s,
                        *op,
                        #[trigger] out@[k],
                    ) by {
                        if k < opre.len() {
                            assert(out@[k] == opre[k]);
                            assert(spender_recorded(s, *op, opre[k]));
                        } else {
                            assert((s[i as int]).tx.hash == out@[k] && s[i as int].tx.inputs@
                                .contains(*op));
                        }
                    }
                }
            } else {
                proof {
                    assert(!s[i as int].tx.inputs@.contains(*op));
                }
            }
            i += 1;
        }
        out
    }

    /// Evict every transaction whose deadline has passed; the caller
    /// records each as `Reject::Expired`.
    pub fn clean_expired(&mut self, now_ms: u64) -> (r: Vec<(Byte32, Reject)>)
        requires
            old(self).wf(),
        ensures
            final(self).wf(),
            final(self).capacity_view() == old(self).capacity_view(),
            // survivors are exactly the fresh entries, in order, and the
            // result names exactly the expired ones, in order
            final(self).entries_view() == fresh_prefix(
                old(self).entries_view(),
                now_ms,
                old(self).entries_view().len() as int,
            ),
            r@ == expired_prefix(
                old(self).entries_view(),
                now_ms,
                old(self).entries_view().len() as int,
            ),
            final(self).entries_view().len() + r@.len() == old(self).entries_view().len(),
            forall|i: int|
                0 <= i < final(self).entries_view().len() ==> (#[trigger] final(self).entries_view()[i]).expires_at_ms >= now_ms,
            forall|k: int| 0 <= k < r@.len() ==> (#[trigger] r@[k]).1 == Reject::Expired,
    {
        let ghost s0 = self.entries@;
        let mut kept: Vec<OrphanTx> = Vec::new();
        let mut expired: Vec<(Byte32, Reject)> = Vec::new();
        let n = self.entries.len();
        let mut t: usize = 0;
        let ghost mut kidx: Seq<int> = Seq::empty();
        while t < n
            invariant
                self.entries@ == s0.subrange(t as int, n as int),
                n == s0.len(),
                0 <= t <= n,
                self.capacity == old(self).capacity,
                forall|i: int, j: int|
                    0 <= i < j < s0.len() ==> s0[i].tx.hash != s0[j].tx.hash,
                kidx.len() == kept@.len(),
                kept@.len() <= t,
                kept@ == fresh_prefix(s0, now_ms, t as int),
                expired@ == expired_prefix(s0, now_ms, t as int),
                kept@.len() + expired@.len() == t,
                forall|k: int|
                    #![trigger kidx[k]]
                    0 <= k < kept@.len() ==> 0 <= kidx[k] < t && kept@[k] == s0[kidx[k]]
                        && s0[kidx[k]].expires_at_ms >= now_ms,
                forall|k1: int, k2: int|
                    0 <= k1 < k2 < kidx.len() ==> #[trigger] kidx[k1] < #[trigger] kidx[k2],
                forall|k: int| 0 <= k < expired@.len() ==> (#[trigger] expired@[k]).1
                    == Reject::Expired,
            decreases n - t,
        {
            let e = self.entries.remove(0);
            proof {
                assert(e == s0[t as int]);
                assert(self.entries@ =~= s0.subrange(t as int + 1, n as int));
            }
            if e.expires_at_ms < now_ms {
                expired.push((e.tx.hash, Reject::Expired));
            } else {
                let ghost kxpre = kidx;
                kept.push(e);
                proof {
                    kidx = kidx.push(t as int);
                    assert(kept@[kept@.len() - 1] == s0[t as int]);
                    assert(kidx[kidx.len() - 1] == t as int);
                    assert forall|k: int|
                        #![trigger kidx[k]]
                        0 <= k < kept@.len() implies 0 <= kidx[k] < t + 1 && kept@[k]
                        == s0[kidx[k]] && s0[kidx[k]].expires_at_ms >= now_ms by {
                        if k < kept@.len() - 1 {
                            assert(kidx[k] == kxpre[k]);
                            assert(kept@[k] == kept@.subrange(0, kept@.len() - 1)[k]);
                        }
                    }
                    assert forall|k1: int, k2: int|
                        0 <= k1 < k2 < kidx.len() implies #[trigger] kidx[k1]
                        < #[trigger] kidx[k2] by {
                        if k2 < kidx.len() - 1 {
                            assert(kidx[k1] == kxpre[k1] && kidx[k2] == kxpre[k2]);
                        } else {
                            assert(kidx[k1] == kxpre[k1]);
                        }
                    }
                }
            }
            t += 1;
        }
        self.entries = kept;
        proof {
            assert forall|i: int, j: int|
                0 <= i < j < self.entries@.len() implies self.entries@[i].tx.hash
                != self.entries@[j].tx.hash by {
                assert(kidx[i] < kidx[j]);
                assert(s0[kidx[i]].tx.hash != s0[kidx[j]].tx.hash);
            }
            assert forall|i: int|
                0 <= i < self.entries@.len() implies (#[trigger] self.entries@[i]).expires_at_ms
                >= now_ms by {
                assert(self.entries@[i] == s0[kidx[i]]);
            }
        }
        expired
    }
}

} // verus!
