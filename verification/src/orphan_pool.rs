//! Pool of lonely (orphan) blocks: blocks whose parent is not yet known.
//!
//! The pool is a forest. A *leader* is a parent hash referenced by at least
//! one entry while not being an entry itself: the root of one orphaned
//! subtree. When a leader's block finally arrives, the whole subtree below
//! it is flushed out in breadth-first order.

use crate::types::Byte32;
use vstd::prelude::*;

verus! {

/// Number of epochs after which an orphan block is considered expired.
pub const EXPIRED_EPOCH: u64 = 6;

/// An orphan entry: a block whose parent is unknown, with the epoch it was
/// minted in, the peer it came from and the time it was received.
#[derive(Clone, Copy, Debug, PartialEq, Eq, Structural)]
pub struct LonelyBlock {
    pub hash: Byte32,
    pub parent_hash: Byte32,
    pub epoch_number: u64,
    pub peer_id: u64,
    pub receive_time: u64,
}

/// Whether some entry of `s` has hash `h`.
pub open spec fn has_entry(s: Seq<LonelyBlock>, h: Byte32) -> bool {
    exists|i: int| 0 <= i < s.len() && s[i].hash == h
}

/// The entry of `s` with hash `h` (entries have unique hashes).
pub open spec fn entry_at(s: Seq<LonelyBlock>, h: Byte32) -> LonelyBlock {
    s[choose|i: int| 0 <= i < s.len() && s[i].hash == h]
}

/// No two entries share a hash.
pub open spec fn unique_hashes(s: Seq<LonelyBlock>) -> bool {
    forall|i: int, j: int| 0 <= i < j < s.len() ==> s[i].hash != s[j].hash
}

/// Whether some entry of `s` names `p` as its parent.
pub open spec fn has_child(s: Seq<LonelyBlock>, p: Byte32) -> bool {
    exists|i: int| 0 <= i < s.len() && s[i].parent_hash == p
}

/// A leader: referenced as a parent while not an entry itself.
pub open spec fn is_leader(s: Seq<LonelyBlock>, p: Byte32) -> bool {
    has_child(s, p) && !has_entry(s, p)
}

/// A parent chain inside `s` hanging from `root`: every element is an entry,
/// the first one's parent is `root`, and each later one's parent is the
/// element before it.
pub open spec fn is_chain_from(s: Seq<LonelyBlock>, root: Byte32, chain: Seq<Byte32>) -> bool {
    &&& chain.len() > 0
    &&& (forall|i: int| 0 <= i < chain.len() ==> has_entry(s, #[trigger] chain[i]))
    &&& entry_at(s, chain[0]).parent_hash == root
    &&& (forall|i: int|
        1 <= i < chain.len() ==> entry_at(s, #[trigger] chain[i]).parent_hash == chain[i - 1])
}

/// Whether the entry with hash `h` sits somewhere below `root`.
pub open spec fn is_descendant(s: Seq<LonelyBlock>, root: Byte32, h: Byte32) -> bool {
    exists|chain: Seq<Byte32>| is_chain_from(s, root, chain) && chain.last() == h
}

/// The shape of a well-formed pool: hashes are unique, no block is its own
/// parent, the leaders hold no duplicates, and the leaders are exactly the
/// roots of the orphaned subtrees.
pub open spec fn pool_shape(entries: Seq<LonelyBlock>, leaders: Seq<Byte32>) -> bool {
    &&& unique_hashes(entries)
    &&& (forall|i: int|
        0 <= i < entries.len() ==> (#[trigger] entries[i]).hash != entries[i].parent_hash)
    &&& (forall|i: int, j: int| 0 <= i < j < leaders.len() ==> leaders[i] != leaders[j])
    &&& (forall|p: Byte32| #[trigger] leaders.contains(p) <==> is_leader(entries, p))
}

/// If `s[j]` has hash `h` and hashes are unique, `entry_at` picks `s[j]`.
pub proof fn lemma_entry_at(s: Seq<LonelyBlock>, j: int)
    requires
        unique_hashes(s),
        0 <= j < s.len(),
    ensures
        entry_at(s, s[j].hash) == s[j],
{
    let h = s[j].hash;
    let i = choose|i: int| 0 <= i < s.len() && s[i].hash == h;
    assert(0 <= i < s.len() && s[i].hash == h);
}

/// A direct child of `root` is a descendant of `root`.
pub proof fn lemma_desc_base(s: Seq<LonelyBlock>, root: Byte32, h: Byte32)
    requires
        has_entry(s, h),
        entry_at(s, h).parent_hash == root,
    ensures
        is_descendant(s, root, h),
{
    let chain: Seq<Byte32> = seq![h];
    assert(is_chain_from(s, root, chain));
    assert(chain.last() == h);
}

/// A child of a descendant of `root` is itself a descendant of `root`.
pub proof fn lemma_desc_step(s: Seq<LonelyBlock>, root: Byte32, d: Byte32, h: Byte32)
    requires
        is_descendant(s, root, d),
        has_entry(s, h),
        entry_at(s, h).parent_hash == d,
    ensures
        is_descendant(s, root, h),
{
    let chain = choose|chain: Seq<Byte32>| is_chain_from(s, root, chain) && chain.last() == d;
    let longer = chain.push(h);
    assert forall|i: int| 0 <= i < longer.len() implies has_entry(s, #[trigger] longer[i]) by {
        if i < chain.len() {
            assert(longer[i] == chain[i]);
        }
    }
    assert forall|i: int|
        1 <= i < longer.len() implies entry_at(s, #[trigger] longer[i]).parent_hash == longer[i
        - 1] by {
        if i < chain.len() {
            assert(longer[i] == chain[i]);
        } else {
            assert(longer[i] == h && longer[i - 1] == chain.last());
        }
    }
    assert(is_chain_from(s, root, longer));
    assert(longer.last() == h);
}

/// Removing index `i` keeps hashes unique, keeps every other entry with its
/// content, and drops exactly the hash of `s[i]`.
pub proof fn lemma_remove_index(s: Seq<LonelyBlock>, i: int)
    requires
        unique_hashes(s),
        0 <= i < s.len(),
    ensures
        unique_hashes(s.remove(i)),
        forall|h: Byte32|
            #[trigger] has_entry(s.remove(i), h) <==> (has_entry(s, h) && h != s[i].hash),
        forall|h: Byte32|
            has_entry(s.remove(i), h) ==> #[trigger] entry_at(s.remove(i), h) == entry_at(s, h),
{
    let t = s.remove(i);
    assert forall|h: Byte32| #[trigger] has_entry(t, h) implies (has_entry(s, h) && h
        != s[i].hash) by {
        let j = choose|j: int| 0 <= j < t.len() && t[j].hash == h;
        if j < i {
            assert(s[j].hash == h);
        } else {
            assert(s[j + 1].hash == h);
        }
    }
    assert forall|h: Byte32| has_entry(s, h) && h != s[i].hash implies #[trigger] has_entry(
        t,
        h,
    ) by {
        let j = choose|j: int| 0 <= j < s.len() && s[j].hash == h;
        if j < i {
            assert(t[j].hash == h);
        } else {
            assert(j > i);
            assert(t[j - 1].hash == h);
        }
    }
    assert forall|h: Byte32| has_entry(t, h) implies #[trigger] entry_at(t, h) == entry_at(
        s,
        h,
    ) by {
        let j = choose|j: int| 0 <= j < t.len() && t[j].hash == h;
        if j < i {
            lemma_entry_at(s, j);
        } else {
            lemma_entry_at(s, j + 1);
        }
        lemma_entry_at_sub(t, j, h);
    }
}

proof fn lemma_entry_at_sub(t: Seq<LonelyBlock>, j: int, h: Byte32)
    requires
        unique_hashes(t),
        0 <= j < t.len(),
        t[j].hash == h,
    ensures
        entry_at(t, h) == t[j],
{
    lemma_entry_at(t, j);
}

/// Everything on a chain below `root` is flushed once the frontier is empty:
/// if the remaining entries are the old ones minus `removed`, and no
/// remaining entry hangs from `root` or from a removed hash, then every
/// element of the chain was removed.
proof fn lemma_chain_removed(
    e0: Seq<LonelyBlock>,
    e: Seq<LonelyBlock>,
    removed: Seq<LonelyBlock>,
    root: Byte32,
    chain: Seq<Byte32>,
    k: int,
)
    requires
        is_chain_from(e0, root, chain),
        0 <= k < chain.len(),
        forall|h: Byte32|
            #[trigger] has_entry(e, h) <==> (has_entry(e0, h) && !removed_has(removed, h)),
        forall|h: Byte32| has_entry(e, h) ==> #[trigger] entry_at(e, h) == entry_at(e0, h),
        forall|h: Byte32|
            #[trigger] has_entry(e, h) ==> !(entry_at(e, h).parent_hash == root || removed_has(
                removed,
                entry_at(e, h).parent_hash,
            )),
    ensures
        removed_has(removed, chain[k]),
    decreases k,
{
    if k == 0 {
        if !removed_has(removed, chain[0]) {
            assert(has_entry(e, chain[0]));
            assert(entry_at(e, chain[0]).parent_hash == root);
        }
    } else {
        lemma_chain_removed(e0, e, removed, root, chain, k - 1);
        if !removed_has(removed, chain[k]) {
            assert(has_entry(e, chain[k]));
            assert(entry_at(e, chain[k]).parent_hash == chain[k - 1]);
        }
    }
}

/// Whether some removed record carries hash `h`.
pub open spec fn removed_has(removed: Seq<LonelyBlock>, h: Byte32) -> bool {
    exists|j: int| 0 <= j < removed.len() && removed[j].hash == h
}

/// Whether some entry under `p` is already expired at `tip_epoch`.
pub open spec fn has_expired_child(s: Seq<LonelyBlock>, p: Byte32, tip_epoch: u64) -> bool {
    exists|i: int|
        0 <= i < s.len() && (#[trigger] s[i]).parent_hash == p && s[i].epoch_number + EXPIRED_EPOCH
            < tip_epoch
}

/// An expired first child is in particular an expired child.
proof fn lemma_expired_first_child(s: Seq<LonelyBlock>, p: Byte32, tip_epoch: u64)
    requires
        expired(first_child(s, p), tip_epoch),
    ensures
        has_expired_child(s, p, tip_epoch),
{
    let k = choose|k: int| 0 <= k < s.len() && s[k].parent_hash == p;
    lemma_first_exists(s, p, k);
    let f = choose|f: int|
        0 <= f <= k && s[f].parent_hash == p && (forall|j: int|
            0 <= j < f ==> s[j].parent_hash != p);
    lemma_first_child(s, p, f);
    assert(s[f].parent_hash == p && s[f].epoch_number + EXPIRED_EPOCH < tip_epoch);
}

/// A descendant in a smaller pool is a descendant in any pool that keeps
/// every entry of the smaller one with its content.
pub proof fn lemma_desc_mono(sub: Seq<LonelyBlock>, sup: Seq<LonelyBlock>, root: Byte32, h: Byte32)
    requires
        forall|hh: Byte32|
            #[trigger] has_entry(sub, hh) ==> has_entry(sup, hh) && entry_at(sub, hh) == entry_at(
                sup,
                hh,
            ),
        is_descendant(sub, root, h),
    ensures
        is_descendant(sup, root, h),
{
    let chain = choose|chain: Seq<Byte32>| is_chain_from(sub, root, chain) && chain.last() == h;
    assert forall|i: int| 0 <= i < chain.len() implies has_entry(sup, #[trigger] chain[i]) by {
        assert(has_entry(sub, chain[i]));
    }
    assert(is_chain_from(sup, root, chain));
}

/// Two rootless chains ending at the same entry start at the same root: a
/// block's parent pointers determine its whole ancestry.
proof fn lemma_chain_determined(
    s: Seq<LonelyBlock>,
    root1: Byte32,
    c1: Seq<Byte32>,
    root2: Byte32,
    c2: Seq<Byte32>,
)
    requires
        unique_hashes(s),
        is_chain_from(s, root1, c1),
        is_chain_from(s, root2, c2),
        c1.last() == c2.last(),
        !has_entry(s, root1),
        !has_entry(s, root2),
    ensures
        root1 == root2,
    decreases c1.len() + c2.len(),
{
    if c1.len() == 1 && c2.len() == 1 {
        assert(entry_at(s, c1[0]).parent_hash == root1);
        assert(entry_at(s, c2[0]).parent_hash == root2);
    } else if c1.len() == 1 {
        assert(entry_at(s, c1[0]).parent_hash == root1);
        assert(entry_at(s, c2[c2.len() - 1]).parent_hash == c2[c2.len() - 2]);
        assert(has_entry(s, c2[c2.len() - 2]));
        assert(false);
    } else if c2.len() == 1 {
        assert(entry_at(s, c2[0]).parent_hash == root2);
        assert(entry_at(s, c1[c1.len() - 1]).parent_hash == c1[c1.len() - 2]);
        assert(has_entry(s, c1[c1.len() - 2]));
        assert(false);
    } else {
        let d1 = c1.drop_last();
        let d2 = c2.drop_last();
        assert(is_chain_from(s, root1, d1)) by {
            assert forall|i: int| 0 <= i < d1.len() implies has_entry(s, #[trigger] d1[i]) by {
                assert(d1[i] == c1[i]);
            }
            assert(d1[0] == c1[0]);
            assert forall|i: int|
                1 <= i < d1.len() implies entry_at(s, #[trigger] d1[i]).parent_hash == d1[i
                - 1] by {
                assert(d1[i] == c1[i] && d1[i - 1] == c1[i - 1]);
            }
        }
        assert(is_chain_from(s, root2, d2)) by {
            assert forall|i: int| 0 <= i < d2.len() implies has_entry(s, #[trigger] d2[i]) by {
                assert(d2[i] == c2[i]);
            }
            assert(d2[0] == c2[0]);
            assert forall|i: int|
                1 <= i < d2.len() implies entry_at(s, #[trigger] d2[i]).parent_hash == d2[i
                - 1] by {
                assert(d2[i] == c2[i] && d2[i - 1] == c2[i - 1]);
            }
        }
        assert(d1.last() == c1[c1.len() - 2]);
        assert(d2.last() == c2[c2.len() - 2]);
        assert(entry_at(s, c1[c1.len() - 1]).parent_hash == c1[c1.len() - 2]);
        assert(entry_at(s, c2[c2.len() - 1]).parent_hash == c2[c2.len() - 2]);
        lemma_chain_determined(s, root1, d1, root2, d2);
    }
}

/// An entry hangs below at most one subtree root.
pub proof fn lemma_desc_root_unique(s: Seq<LonelyBlock>, r1: Byte32, r2: Byte32, h: Byte32)
    requires
        unique_hashes(s),
        is_descendant(s, r1, h),
        is_descendant(s, r2, h),
        !has_entry(s, r1),
        !has_entry(s, r2),
    ensures
        r1 == r2,
{
    let c1 = choose|c: Seq<Byte32>| is_chain_from(s, r1, c) && c.last() == h;
    let c2 = choose|c: Seq<Byte32>| is_chain_from(s, r2, c) && c.last() == h;
    lemma_chain_determined(s, r1, c1, r2, c2);
}

/// Whether `h` hangs below some leader that has an expired child: the
/// records `clean_expired_blocks` may evict. Kept opaque so that callers
/// reason with `lemma_expiry_spares_fresh_subtrees` instead of unfolding.
#[verifier::opaque]
pub open spec fn evicted_from_expired(
    s: Seq<LonelyBlock>,
    leaders: Seq<Byte32>,
    tip_epoch: u64,
    h: Byte32,
) -> bool {
    exists|p: Byte32|
        #[trigger] leaders.contains(p) && has_expired_child(s, p, tip_epoch) && is_descendant(
            s,
            p,
            h,
        )
}

/// Expiry sparing law: eviction never reaches into a subtree whose leader
/// has no expired child. Take the pool as `clean_expired_blocks` saw it and
/// its result `removed`; any entry hanging below a leader none of whose
/// children is expired is not among the removed.
pub proof fn lemma_expiry_spares_fresh_subtrees(
    s: Seq<LonelyBlock>,
    leaders: Seq<Byte32>,
    removed: Seq<LonelyBlock>,
    tip_epoch: u64,
    fresh: Byte32,
    h: Byte32,
)
    requires
        unique_hashes(s),
        forall|p: Byte32| #[trigger] leaders.contains(p) ==> !has_entry(s, p),
        forall|j: int|
            0 <= j < removed.len() ==> evicted_from_expired(
                s,
                leaders,
                tip_epoch,
                (#[trigger] removed[j]).hash,
            ),
        !has_entry(s, fresh),
        !has_expired_child(s, fresh, tip_epoch),
        is_descendant(s, fresh, h),
    ensures
        !removed_has(removed, h),
{
    if removed_has(removed, h) {
        let j = choose|j: int| 0 <= j < removed.len() && removed[j].hash == h;
        reveal(evicted_from_expired);
        let p = choose|p: Byte32|
            leaders.contains(p) && has_expired_child(s, p, tip_epoch) && is_descendant(
                s,
                p,
                removed[j].hash,
            );
        lemma_desc_root_unique(s, p, fresh, h);
    }
}

/// A descendant is in particular an entry.
pub proof fn lemma_desc_is_entry(s: Seq<LonelyBlock>, root: Byte32, h: Byte32)
    requires
        is_descendant(s, root, h),
    ensures
        has_entry(s, h),
{
    let chain = choose|chain: Seq<Byte32>| is_chain_from(s, root, chain) && chain.last() == h;
    assert(has_entry(s, chain[chain.len() - 1]));
}

/// The inner state of the orphan pool: the entries and the current leaders.
pub struct InnerPool {
    entries: Vec<LonelyBlock>,
    leaders: Vec<Byte32>,
}

impl InnerPool {
    /// The orphan entries, for specifications.
    pub closed spec fn entries_view(self) -> Seq<LonelyBlock> {
        self.entries@
    }

    /// The leaders, for specifications.
    pub closed spec fn leaders_view(self) -> Seq<Byte32> {
        self.leaders@
    }

    /// Well-formed: hashes are unique, no block is its own parent, and the
    /// leaders are exactly the roots of the orphaned subtrees.
    pub open spec fn wf(self) -> bool {
        pool_shape(self.entries_view(), self.leaders_view())
    }

    /// An empty pool; `capacity` is only a sizing hint.
    pub fn with_capacity(capacity: usize) -> (r: InnerPool)
        ensures
            r.wf(),
            r.entries_view() == Seq::<LonelyBlock>::empty(),
            r.leaders_view() == Seq::<Byte32>::empty(),
    {
        let r = InnerPool { entries: Vec::with_capacity(capacity), leaders: Vec::new() };
        proof {
            assert(r.entries_view() =~= Seq::<LonelyBlock>::empty());
            assert(r.leaders_view() =~= Seq::<Byte32>::empty());
        }
        r
    }

    /// Number of orphan entries in the pool.
    pub fn len(&self) -> (r: usize)
        ensures
            r == self.entries_view().len(),
    {
        self.entries.len()
    }

    /// A copy of the current leaders.
    pub fn clone_leaders(&self) -> (r: Vec<Byte32>)
        ensures
            r@ == self.leaders_view(),
    {
        let mut out: Vec<Byte32> = Vec::new();
        let mut i: usize = 0;
        while i < self.leaders.len()
            invariant
                0 <= i <= self.leaders@.len(),
                out@ == self.leaders@.subrange(0, i as int),
            decreases self.leaders@.len() - i,
        {
            out.push(self.leaders[i]);
            i += 1;
            proof {
                assert(out@ =~= self.leaders@.subrange(0, i as int));
            }
        }
        proof {
            assert(out@ =~= self.leaders@);
        }
        out
    }

    /// Number of leaders.
    pub fn leaders_len(&self) -> (r: usize)
        ensures
            r == self.leaders_view().len(),
    {
        self.leaders.len()
    }

    /// The entry with hash `hash`, if it is in the pool.
    pub fn get_block(&self, hash: &Byte32) -> (r: Option<LonelyBlock>)
        requires
            self.wf(),
        ensures
            match r {
                Some(b) => has_entry(self.entries_view(), *hash) && b == entry_at(
                    self.entries_view(),
                    *hash,
                ),
                None => !has_entry(self.entries_view(), *hash),
            },
    {
        let mut i: usize = 0;
        while i < self.entries.len()
            invariant
                self.wf(),
                0 <= i <= self.entries@.len(),
                forall|j: int| 0 <= j < i ==> self.entries@[j].hash != hash,
            decreases self.entries@.len() - i,
        {
            if self.entries[i].hash == *hash {
                proof {
                    lemma_entry_at(self.entries@, i as int);
                }
                return Some(self.entries[i]);
            }
            i += 1;
        }
        None
    }

    fn contains_hash(&self, h: &Byte32) -> (r: bool)
        ensures
            r == has_entry(self.entries@, *h),
    {
        let mut i: usize = 0;
        while i < self.entries.len()
            invariant
                0 <= i <= self.entries@.len(),
                forall|j: int| 0 <= j < i ==> self.entries@[j].hash != h,
            decreases self.entries@.len() - i,
        {
            if self.entries[i].hash == *h {
                return true;
            }
            i += 1;
        }
        false
    }

    fn leaders_contains(&self, p: &Byte32) -> (r: bool)
        ensures
            r == self.leaders@.contains(*p),
    {
        let mut i: usize = 0;
        while i < self.leaders.len()
            invariant
                0 <= i <= self.leaders@.len(),
                forall|j: int| 0 <= j < i ==> self.leaders@[j] != p,
            decreases self.leaders@.len() - i,
        {
            if self.leaders[i] == *p {
                return true;
            }
            i += 1;
        }
        false
    }

    /// Remove `p` from the leaders if present; say whether it was there.
    fn leaders_remove(&mut self, p: &Byte32) -> (r: bool)
        requires
            forall|i: int, j: int|
                0 <= i < j < old(self).leaders@.len() ==> old(self).leaders@[i] != old(
                    self,
                ).leaders@[j],
        ensures
            final(self).entries@ == old(self).entries@,
            r == old(self).leaders@.contains(*p),
            !old(self).leaders@.contains(*p) ==> final(self).leaders@ == old(self).leaders@,
            forall|i: int, j: int|
                0 <= i < j < final(self).leaders@.len() ==> final(self).leaders@[i]
                    != final(self).leaders@[j],
            forall|q: Byte32|
                #[trigger] final(self).leaders@.contains(q) <==> (old(self).leaders@.contains(q)
                    && q != p),
    {
        let mut i: usize = 0;
        while i < self.leaders.len()
            invariant
                self.entries@ == old(self).entries@,
                self.leaders@ == old(self).leaders@,
                0 <= i <= self.leaders@.len(),
                forall|j: int| 0 <= j < i ==> self.leaders@[j] != p,
                forall|a: int, b: int|
                    0 <= a < b < old(self).leaders@.len() ==> old(self).leaders@[a] != old(
                        self,
                    ).leaders@[b],
            decreases self.leaders@.len() - i,
        {
            if self.leaders[i] == *p {
                let ghost pre = self.leaders@;
                self.leaders.remove(i);
                proof {
                    assert(pre[i as int] == *p);
                    assert(pre.contains(*p));
                    assert forall|a: int, b: int|
                        0 <= a < b < self.leaders@.len() implies self.leaders@[a]
                        != self.leaders@[b] by {
                        let a2: int = if a < i { a } else { a + 1 };
                        let b2: int = if b < i { b } else { b + 1 };
                        assert(old(self).leaders@[a2] != old(self).leaders@[b2]);
                        assert(self.leaders@[a] == pre[a2] && self.leaders@[b] == pre[b2]);
                    }
                    assert forall|q: Byte32| #[trigger]
                        self.leaders@.contains(q) implies (pre.contains(q) && q != p) by {
                        let j = choose|j: int|
                            0 <= j < self.leaders@.len() && self.leaders@[j] == q;
                        if j < i {
                            assert(pre[j] == q);
                        } else {
                            assert(pre[j + 1] == q);
                            assert((i as int) < j + 1);
                            assert(old(self).leaders@[i as int] != old(self).leaders@[j + 1]);
                            assert(pre[i as int] != pre[j + 1]);
                        }
                    }
                    assert forall|q: Byte32| pre.contains(q) && q != p implies #[trigger]
                        self.leaders@.contains(q) by {
                        let j = choose|j: int| 0 <= j < pre.len() && pre[j] == q;
                        if j < i {
                            assert(self.leaders@[j] == q);
                        } else {
                            assert(j != i);
                            assert(self.leaders@[j - 1] == q);
                        }
                    }
                }
                return true;
            }
            i += 1;
        }
        proof {
            assert(!self.leaders@.contains(*p));
        }
        false
    }

    /// Insert an orphan whose hash is new to the pool. The new block's
    /// parent becomes a leader unless it is an orphan entry itself, and the
    /// new block stops being a leader if it was one.
    fn insert_fresh(&mut self, lonely_block: LonelyBlock)
        requires
            old(self).wf(),
            !has_entry(old(self).entries_view(), lonely_block.hash),
            lonely_block.hash != lonely_block.parent_hash,
        ensures
            final(self).wf(),
            final(self).entries_view() == old(self).entries_view().push(lonely_block),
            !final(self).leaders_view().contains(lonely_block.hash),
            final(self).leaders_view().contains(lonely_block.parent_hash) <==> !has_entry(
                old(self).entries_view(),
                lonely_block.parent_hash,
            ),
            forall|q: Byte32|
                q != lonely_block.hash && q != lonely_block.parent_hash ==> (
                #[trigger] final(self).leaders_view().contains(q) <==> old(
                    self,
                ).leaders_view().contains(q)),
    {
        let hash = lonely_block.hash;
        let parent_hash = lonely_block.parent_hash;
        let ghost e0 = self.entries@;
        self.entries.push(lonely_block);
        let ghost e1 = self.entries@;
        proof {
            assert forall|h: Byte32| #[trigger] has_entry(e1, h) implies (has_entry(e0, h) || h
                == hash) by {
                let j = choose|j: int| 0 <= j < e1.len() && e1[j].hash == h;
                if j < e0.len() {
                    assert(e0[j].hash == h);
                }
            }
            assert(e1[e0.len() as int].hash == hash);
            assert(has_entry(e1, hash));
            assert forall|h: Byte32| has_entry(e0, h) implies #[trigger] has_entry(e1, h) by {
                let j = choose|j: int| 0 <= j < e0.len() && e0[j].hash == h;
                assert(e1[j].hash == h);
            }
            assert forall|p: Byte32| #[trigger] has_child(e1, p) implies (has_child(e0, p) || p
                == parent_hash) by {
                let j = choose|j: int| 0 <= j < e1.len() && e1[j].parent_hash == p;
                if j < e0.len() {
                    assert(e0[j].parent_hash == p);
                }
            }
            assert(e1[e0.len() as int].parent_hash == parent_hash);
            assert(has_child(e1, parent_hash));
            assert forall|p: Byte32| has_child(e0, p) implies #[trigger] has_child(e1, p) by {
                let j = choose|j: int| 0 <= j < e0.len() && e0[j].parent_hash == p;
                assert(e1[j].parent_hash == p);
            }
            // hashes stay unique, and no entry is its own parent
            assert forall|a: int, b: int| 0 <= a < b < e1.len() implies e1[a].hash
                != e1[b].hash by {
                if b < e0.len() {
                    assert(e0[a].hash != e0[b].hash);
                } else {
                    assert(e1[b].hash == hash);
                    assert(e0[a].hash == e1[a].hash);
                    if e1[a].hash == hash {
                        assert(has_entry(e0, hash));
                    }
                }
            }
        }
        // The new block is an entry now, so it can no longer be a leader.
        proof {
            assert forall|a: int, b: int|
                0 <= a < b < self.leaders@.len() implies self.leaders@[a] != self.leaders@[b] by {
                assert(old(self).leaders_view()[a] != old(self).leaders_view()[b]);
            }
        }
        self.leaders_remove(&hash);
        let ghost l1 = self.leaders@;
        // If the parent is not an entry, it roots a subtree now.
        let parent_is_entry = self.contains_hash(&parent_hash);
        if !parent_is_entry {
            if !self.leaders_contains(&parent_hash) {
                self.leaders.push(parent_hash);
                proof {
                    let l2 = self.leaders@;
                    assert(l2[l2.len() - 1] == parent_hash);
                    assert(l2.contains(parent_hash));
                    assert forall|q: Byte32| #[trigger] l2.contains(q) implies (l1.contains(q) || q
                        == parent_hash) by {
                        let j = choose|j: int| 0 <= j < l2.len() && l2[j] == q;
                        if j < l2.len() - 1 {
                            assert(l1[j] == q);
                        }
                    }
                    assert forall|q: Byte32| l1.contains(q) implies #[trigger] l2.contains(q) by {
                        let j = choose|j: int| 0 <= j < l1.len() && l1[j] == q;
                        assert(l2[j] == q);
                    }
                    assert forall|a: int, b: int| 0 <= a < b < l2.len() implies l2[a]
                        != l2[b] by {
                        if b < l2.len() - 1 {
                            assert(l1[a] != l1[b]);
                        } else {
                            assert(l2[a] == l1[a]);
                            if l2[a] == parent_hash {
                                assert(l1.contains(parent_hash));
                            }
                        }
                    }
                }
            }
        }
        proof {
            let l = self.leaders@;
            let l0 = old(self).leaders@;
            assert forall|q: Byte32| #[trigger] l0.contains(q) <==> is_leader(e0, q) by {
                assert(old(self).leaders_view().contains(q) <==> is_leader(
                    old(self).entries_view(),
                    q,
                ));
            }
            assert forall|q: Byte32| #[trigger] l.contains(q) implies is_leader(e1, q) by {
                if q == parent_hash {
                    assert(!has_entry(e1, parent_hash)) by {
                        if parent_is_entry {
                            // then nothing was pushed, so q came from l1
                            assert(l1.contains(parent_hash));
                            assert(l0.contains(parent_hash));
                            assert(is_leader(e0, parent_hash));
                            assert(has_entry(e1, parent_hash));
                            assert(has_entry(e0, parent_hash) || parent_hash == hash);
                        }
                    }
                    assert(is_leader(e1, parent_hash));
                } else {
                    assert(l1.contains(q) || q == parent_hash);
                    assert(l0.contains(q) && q != hash);
                    assert(is_leader(e0, q));
                    assert(has_child(e1, q));
                    assert(!has_entry(e1, q)) by {
                        assert(!has_entry(e0, q));
                    }
                }
            }
            assert forall|q: Byte32| is_leader(e1, q) implies #[trigger] l.contains(q) by {
                assert(has_child(e1, q) && !has_entry(e1, q));
                assert(q != hash);
                if q == parent_hash {
                    assert(!parent_is_entry);
                    if !l1.contains(parent_hash) {
                        assert(l.contains(parent_hash));
                    } else {
                        assert(l.contains(parent_hash));
                    }
                } else {
                    assert(has_child(e0, q));
                    assert(is_leader(e0, q)) by {
                        assert(!has_entry(e0, q));
                    }
                    assert(l0.contains(q));
                    assert(l1.contains(q));
                    assert(l.contains(q));
                }
            }
            assert forall|i: int| 0 <= i < e1.len() implies (#[trigger] e1[i]).hash
                != e1[i].parent_hash by {
                if i < e0.len() {
                    assert((old(self).entries_view()[i]).hash != old(
                        self,
                    ).entries_view()[i].parent_hash);
                } else {
                    assert(e1[i] == lonely_block);
                }
            }
            assert(final(self).entries_view() =~= old(self).entries_view().push(lonely_block));
            assert(!l.contains(hash)) by {
                if l.contains(hash) {
                    assert(is_leader(e1, hash));
                    assert(has_entry(e1, hash));
                }
            }
            assert(l.contains(parent_hash) <==> !has_entry(e0, parent_hash)) by {
                assert(has_child(e1, parent_hash));
                assert(has_entry(e1, parent_hash) <==> (has_entry(e0, parent_hash) || parent_hash
                    == hash));
            }
            assert forall|q: Byte32| q != hash && q != parent_hash implies (#[trigger] l.contains(
                q,
            ) <==> l0.contains(q)) by {
                assert(l.contains(q) <==> is_leader(e1, q));
                assert(l0.contains(q) <==> is_leader(e0, q));
                assert(has_entry(e1, q) <==> (has_entry(e0, q) || q == hash));
                assert(has_child(e1, q) <==> (has_child(e0, q) || q == parent_hash));
            }
        }
    }

    fn find_entry_index(&self, h: &Byte32) -> (r: Option<usize>)
        ensures
            match r {
                Some(i) => 0 <= i < self.entries_view().len() && self.entries_view()[i as int].hash
                    == h,
                None => !has_entry(self.entries_view(), *h),
            },
    {
        let mut i: usize = 0;
        while i < self.entries.len()
            invariant
                0 <= i <= self.entries@.len(),
                forall|j: int| 0 <= j < i ==> self.entries@[j].hash != h,
            decreases self.entries@.len() - i,
        {
            if self.entries[i].hash == *h {
                return Some(i);
            }
            i += 1;
        }
        None
    }

    fn has_child_exec(&self, p: &Byte32) -> (r: bool)
        ensures
            r == has_child(self.entries@, *p),
    {
        let mut i: usize = 0;
        while i < self.entries.len()
            invariant
                0 <= i <= self.entries@.len(),
                forall|j: int| 0 <= j < i ==> self.entries@[j].parent_hash != p,
            decreases self.entries@.len() - i,
        {
            if self.entries[i].parent_hash == *p {
                return true;
            }
            i += 1;
        }
        false
    }

    /// Take one entry out and repair the leaders: the entry's parent stops
    /// leading when this was its last child, and the removed hash itself
    /// starts leading when children were already waiting under it.
    fn remove_entry_only(&mut self, h: &Byte32)
        requires
            old(self).wf(),
            has_entry(old(self).entries_view(), *h),
        ensures
            final(self).wf(),
            forall|h2: Byte32|
                #[trigger] has_entry(final(self).entries_view(), h2) <==> (has_entry(
                    old(self).entries_view(),
                    h2,
                ) && h2 != h),
            forall|h2: Byte32|
                has_entry(final(self).entries_view(), h2) ==> #[trigger] entry_at(
                    final(self).entries_view(),
                    h2,
                ) == entry_at(old(self).entries_view(), h2),
            final(self).entries_view().len() == old(self).entries_view().len() - 1,
    {
        let ghost e0 = self.entries@;
        let ghost l0 = self.leaders@;
        let i = match self.find_entry_index(h) {
            Some(i) => i,
            None => {
                proof {
                    assert(false);
                }
                0
            }
        };
        proof {
            lemma_entry_at(e0, i as int);
        }
        let e = self.entries.remove(i);
        let ghost e1 = self.entries@;
        proof {
            assert(e == e0[i as int]);
            lemma_remove_index(e0, i as int);
            assert(e1 == e0.remove(i as int));
            assert forall|ii: int| 0 <= ii < e1.len() implies (#[trigger] e1[ii]).hash
                != e1[ii].parent_hash by {
                if ii < i {
                    assert(e1[ii] == e0[ii]);
                } else {
                    assert(e1[ii] == e0[ii + 1]);
                }
            }
            assert forall|p: Byte32| #[trigger] has_child(e1, p) implies has_child(e0, p) by {
                let j = choose|j: int| 0 <= j < e1.len() && e1[j].parent_hash == p;
                if j < i {
                    assert(e0[j].parent_hash == p);
                } else {
                    assert(e0[j + 1].parent_hash == p);
                }
            }
            assert forall|p: Byte32| has_child(e0, p) && p != e.parent_hash implies
                #[trigger] has_child(e1, p) by {
                let j = choose|j: int| 0 <= j < e0.len() && e0[j].parent_hash == p;
                assert(j != i);
                if j < i {
                    assert(e1[j].parent_hash == p);
                } else {
                    assert(e1[j - 1].parent_hash == p);
                }
            }
        }
        // the parent may have lost its last child
        let parent_childless = !self.has_child_exec(&e.parent_hash);
        if parent_childless {
            proof {
                assert forall|a: int, b: int|
                    0 <= a < b < self.leaders@.len() implies self.leaders@[a]
                    != self.leaders@[b] by {
                    assert(old(self).leaders_view()[a] != old(self).leaders_view()[b]);
                }
            }
            self.leaders_remove(&e.parent_hash);
        }
        let ghost l1 = self.leaders@;
        proof {
            assert forall|q: Byte32| #[trigger]
                l1.contains(q) <==> (l0.contains(q) && !(parent_childless && q
                == e.parent_hash)) by {}
            assert(!l1.contains(e.hash)) by {
                if l1.contains(e.hash) {
                    assert(l0.contains(e.hash));
                    assert(is_leader(e0, e.hash));
                    assert(has_entry(e0, e.hash)) by {
                        assert(e0[i as int].hash == e.hash);
                    }
                }
            }
        }
        // children may have been waiting under the removed hash
        let hash_has_children = self.has_child_exec(&e.hash);
        if hash_has_children {
            self.leaders.push(e.hash);
        }
        proof {
            let l = self.leaders@;
            assert forall|q: Byte32| #[trigger]
                l.contains(q) <==> (l1.contains(q) || (hash_has_children && q == e.hash)) by {
                if hash_has_children {
                    assert(l[l.len() - 1] == e.hash);
                    if l.contains(q) && q != e.hash {
                        let k = choose|k: int| 0 <= k < l.len() && l[k] == q;
                        assert(k < l.len() - 1);
                        assert(l1[k] == q);
                    }
                    if l1.contains(q) {
                        let k = choose|k: int| 0 <= k < l1.len() && l1[k] == q;
                        assert(l[k] == q);
                    }
                }
            }
            assert forall|a: int, b: int| 0 <= a < b < l.len() implies l[a] != l[b] by {
                if b < l1.len() {
                    assert(l[a] == l1[a] && l[b] == l1[b]);
                    assert(old(self).leaders_view()[a] != old(self).leaders_view()[b]
                        || !(l1 == l0));
                    if l1 == l0 {
                        assert(l0[a] != l0[b]);
                    }
                } else {
                    assert(l[a] == l1[a]);
                    if l1[a] == e.hash {
                        assert(l1.contains(e.hash));
                    }
                }
            }
            assert(has_entry(e0, e.hash)) by {
                assert(e0[i as int].hash == e.hash);
            }
            assert(!has_entry(e1, e.hash));
            assert(e.hash != e.parent_hash) by {
                assert((old(self).entries_view()[i as int]).hash != old(
                    self,
                ).entries_view()[i as int].parent_hash);
            }
            assert forall|q: Byte32| #[trigger] l.contains(q) <==> is_leader(e1, q) by {
                assert(l0.contains(q) <==> is_leader(e0, q)) by {
                    assert(old(self).leaders_view().contains(q) <==> is_leader(
                        old(self).entries_view(),
                        q,
                    ));
                }
                if q == e.hash {
                    assert(l.contains(q) <==> hash_has_children);
                    assert(is_leader(e1, q) <==> has_child(e1, q));
                } else if q == e.parent_hash {
                    assert(has_entry(e1, q) == has_entry(e0, q));
                    if parent_childless {
                        assert(!has_child(e1, q));
                        assert(!l.contains(q));
                        assert(!is_leader(e1, q));
                    } else {
                        assert(has_child(e1, q));
                        assert(has_child(e0, q)) by {
                            assert(e0[i as int].parent_hash == q);
                        }
                        assert(l.contains(q) <==> l0.contains(q));
                    }
                } else {
                    assert(has_entry(e1, q) == has_entry(e0, q));
                    assert(has_child(e1, q) == has_child(e0, q));
                    assert(l.contains(q) <==> l0.contains(q));
                }
            }
            assert(self.wf());
        }
    }

    /// Insert an orphan block. A record already stored under the same hash
    /// is replaced, as a newer arrival supersedes it; the new block's parent
    /// becomes a leader unless it is an orphan entry itself, and the new
    /// block stops being a leader if it was one.
    pub fn insert(&mut self, lonely_block: LonelyBlock)
        requires
            old(self).wf(),
            lonely_block.hash != lonely_block.parent_hash,
        ensures
            final(self).wf(),
            forall|h2: Byte32|
                #[trigger] has_entry(final(self).entries_view(), h2) <==> (has_entry(
                    old(self).entries_view(),
                    h2,
                ) || h2 == lonely_block.hash),
            entry_at(final(self).entries_view(), lonely_block.hash) == lonely_block,
            forall|h2: Byte32|
                has_entry(final(self).entries_view(), h2) && h2 != lonely_block.hash
                    ==> #[trigger] entry_at(final(self).entries_view(), h2) == entry_at(
                    old(self).entries_view(),
                    h2,
                ),
            !has_entry(old(self).entries_view(), lonely_block.hash) ==> final(self).entries_view()
                == old(self).entries_view().push(lonely_block),
            !final(self).leaders_view().contains(lonely_block.hash),
            final(self).leaders_view().contains(lonely_block.parent_hash) <==> !has_entry(
                final(self).entries_view(),
                lonely_block.parent_hash,
            ),
    {
        let ghost s0 = self.entries@;
        if self.contains_hash(&lonely_block.hash) {
            self.remove_entry_only(&lonely_block.hash);
        }
        let ghost s1 = self.entries@;
        self.insert_fresh(lonely_block);
        proof {
            let sf = self.entries@;
            assert(sf == s1.push(lonely_block));
            assert(sf[sf.len() - 1] == lonely_block);
            assert(has_entry(sf, lonely_block.hash)) by {
                assert(sf[sf.len() - 1].hash == lonely_block.hash);
            }
            lemma_entry_at(sf, sf.len() - 1);
            assert forall|h2: Byte32| #[trigger]
                has_entry(sf, h2) <==> (has_entry(s0, h2) || h2 == lonely_block.hash) by {
                if has_entry(sf, h2) && h2 != lonely_block.hash {
                    let j = choose|j: int| 0 <= j < sf.len() && sf[j].hash == h2;
                    assert(j < s1.len());
                    assert(has_entry(s1, h2)) by {
                        assert(s1[j].hash == h2);
                    }
                }
                if has_entry(s0, h2) && h2 != lonely_block.hash {
                    assert(has_entry(s1, h2));
                    let j = choose|j: int| 0 <= j < s1.len() && s1[j].hash == h2;
                    assert(sf[j].hash == h2);
                }
            }
            assert forall|h2: Byte32|
                has_entry(sf, h2) && h2 != lonely_block.hash implies #[trigger] entry_at(sf, h2)
                == entry_at(s0, h2) by {
                let j = choose|j: int| 0 <= j < sf.len() && sf[j].hash == h2;
                assert(j < s1.len());
                assert(s1[j].hash == h2);
                lemma_entry_at(s1, j);
                lemma_entry_at(sf, j);
            }
            assert(final(self).leaders_view().contains(lonely_block.parent_hash) <==> !has_entry(
                sf,
                lonely_block.parent_hash,
            )) by {
                assert(has_entry(s1, lonely_block.parent_hash) <==> has_entry(
                    sf,
                    lonely_block.parent_hash,
                )) by {
                    assert(lonely_block.parent_hash != lonely_block.hash);
                    if has_entry(s1, lonely_block.parent_hash) {
                        let j = choose|j: int|
                            0 <= j < s1.len() && s1[j].hash == lonely_block.parent_hash;
                        assert(sf[j].hash == lonely_block.parent_hash);
                    }
                    if has_entry(sf, lonely_block.parent_hash) {
                        let j = choose|j: int|
                            0 <= j < sf.len() && sf[j].hash == lonely_block.parent_hash;
                        assert(j < s1.len());
                        assert(s1[j].hash == lonely_block.parent_hash);
                    }
                }
            }
        }
    }

    fn find_child(&self, p: &Byte32) -> (r: Option<usize>)
        ensures
            match r {
                Some(i) => 0 <= i < self.entries@.len() && self.entries@[i as int].parent_hash == p,
                None => !has_child(self.entries@, *p),
            },
    {
        let mut i: usize = 0;
        while i < self.entries.len()
            invariant
                0 <= i <= self.entries@.len(),
                forall|j: int| 0 <= j < i ==> self.entries@[j].parent_hash != p,
            decreases self.entries@.len() - i,
        {
            if self.entries[i].parent_hash == *p {
                return Some(i);
            }
            i += 1;
        }
        None
    }

    /// Flush the whole subtree rooted at `parent_hash`. If `parent_hash` is
    /// not a leader nothing happens and the result is empty. Otherwise the
    /// result holds exactly the descendants of `parent_hash`, in
    /// breadth-first order, and no descendant remains in the pool.
    pub fn remove_blocks_by_parent(&mut self, parent_hash: &Byte32) -> (removed: Vec<LonelyBlock>)
        requires
            old(self).wf(),
        ensures
            final(self).wf(),
            !old(self).leaders_view().contains(*parent_hash) ==> {
                &&& final(self).entries_view() == old(self).entries_view()
                &&& final(self).leaders_view() == old(self).leaders_view()
                &&& removed@.len() == 0
            },
            old(self).leaders_view().contains(*parent_hash) ==> {
                &&& (forall|h: Byte32|
                    #[trigger] has_entry(final(self).entries_view(), h) <==> (has_entry(
                        old(self).entries_view(),
                        h,
                    ) && !is_descendant(old(self).entries_view(), *parent_hash, h)))
                &&& (forall|h: Byte32|
                    has_entry(final(self).entries_view(), h) ==> #[trigger] entry_at(
                        final(self).entries_view(),
                        h,
                    ) == entry_at(old(self).entries_view(), h))
                &&& (forall|j: int|
                    0 <= j < removed@.len() ==> is_descendant(
                        old(self).entries_view(),
                        *parent_hash,
                        (#[trigger] removed@[j]).hash,
                    ) && removed@[j] == entry_at(old(self).entries_view(), removed@[j].hash))
                &&& (forall|h: Byte32|
                    is_descendant(old(self).entries_view(), *parent_hash, h) ==> removed_has(
                        removed@,
                        h,
                    ))
                &&& (forall|j: int, k: int|
                    0 <= j < k < removed@.len() ==> removed@[j].hash != removed@[k].hash)
                &&& (forall|q: Byte32|
                    #[trigger] final(self).leaders_view().contains(q) <==> (old(
                        self,
                    ).leaders_view().contains(q) && q != parent_hash))
                &&& removed@.len() >= 1
                &&& (forall|k: int|
                    0 <= k < removed@.len() ==> (#[trigger] removed@[k]).parent_hash
                        == parent_hash || (exists|j: int|
                        0 <= j < k && (#[trigger] removed@[j]).hash == removed@[k].parent_hash))
            },
            final(self).entries_view().len() + removed@.len() == old(self).entries_view().len(),
    {
        let p0 = *parent_hash;
        proof {
            assert forall|a: int, b: int|
                0 <= a < b < self.leaders@.len() implies self.leaders@[a] != self.leaders@[b] by {
                assert(old(self).leaders_view()[a] != old(self).leaders_view()[b]);
            }
        }
        let was_leader = self.leaders_remove(&p0);
        if !was_leader {
            proof {
                assert forall|q: Byte32| #[trigger]
                    self.leaders@.contains(q) <==> is_leader(self.entries@, q) by {
                    assert(old(self).leaders_view().contains(q) <==> is_leader(
                        old(self).entries_view(),
                        q,
                    ));
                }
                assert(self.wf());
            }
            return Vec::new();
        }
        let ghost e0 = old(self).entries@;
        let mut queue: Vec<Byte32> = Vec::new();
        queue.push(p0);
        let mut removed: Vec<LonelyBlock> = Vec::new();
        proof {
            assert(queue@.len() == 1 && queue@[0] == p0);
            assert(queue@.contains(p0));
            assert(removed@.len() == 0);
            assert(unique_hashes(e0));
            assert forall|i: int| 0 <= i < e0.len() implies (#[trigger] e0[i]).hash
                != e0[i].parent_hash by {
                assert((old(self).entries_view()[i]).hash != old(
                    self,
                ).entries_view()[i].parent_hash);
            }
            assert forall|q: Byte32| #[trigger]
                old(self).leaders@.contains(q) <==> is_leader(e0, q) by {
                assert(old(self).leaders_view().contains(q) <==> is_leader(
                    old(self).entries_view(),
                    q,
                ));
            }
        }
        while queue.len() != 0
            invariant
                unique_hashes(self.entries@),
                forall|i: int|
                    0 <= i < self.entries@.len() ==> (#[trigger] self.entries@[i]).hash
                        != self.entries@[i].parent_hash,
                forall|i: int, j: int|
                    0 <= i < j < self.leaders@.len() ==> self.leaders@[i] != self.leaders@[j],
                forall|q: Byte32|
                    #[trigger] self.leaders@.contains(q) <==> (old(self).leaders@.contains(q) && q
                        != p0),
                unique_hashes(e0),
                forall|q: Byte32| #[trigger] old(self).leaders@.contains(q) <==> is_leader(e0, q),
                // entries are the old ones minus the removed ones
                forall|h: Byte32|
                    #[trigger] has_entry(self.entries@, h) <==> (has_entry(e0, h) && !removed_has(
                        removed@,
                        h,
                    )),
                forall|h: Byte32|
                    has_entry(self.entries@, h) ==> #[trigger] entry_at(self.entries@, h)
                        == entry_at(e0, h),
                self.entries@.len() + removed@.len() == e0.len(),
                // parents come out before their children
                forall|k: int|
                    0 <= k < removed@.len() ==> (#[trigger] removed@[k]).parent_hash == p0 || (
                    exists|j: int|
                        0 <= j < k && (#[trigger] removed@[j]).hash == removed@[k].parent_hash),
                // removed records are sound
                forall|j: int|
                    0 <= j < removed@.len() ==> is_descendant(
                        e0,
                        p0,
                        (#[trigger] removed@[j]).hash,
                    ) && removed@[j] == entry_at(e0, removed@[j].hash),
                forall|j: int, k: int|
                    0 <= j < k < removed@.len() ==> removed@[j].hash != removed@[k].hash,
                // queue elements are the root or removed hashes
                forall|k: int|
                    0 <= k < queue@.len() ==> (#[trigger] queue@[k] == p0 || removed_has(
                        removed@,
                        queue@[k],
                    )),
                // frontier: an entry hanging from the processed region has
                // its parent still queued
                forall|h: Byte32|
                    #[trigger] has_entry(self.entries@, h) && (entry_at(self.entries@,
                        h,
                    ).parent_hash == p0 || removed_has(removed@, entry_at(self.entries@,
                        h,
                    ).parent_hash)) ==> queue@.contains(entry_at(self.entries@, h).parent_hash),
            decreases 2 * self.entries@.len() + queue@.len(),
        {
            let ghost epre = self.entries@;
            let ghost rpre = removed@;
            let ghost qpre = queue@;
            let front = queue[0];
            match self.find_child(&front) {
                Some(i) => {
                    let child = self.entries[i];
                    self.entries.remove(i);
                    removed.push(child);
                    queue.push(child.hash);
                    proof {
                        lemma_entry_at(epre, i as int);
                        lemma_remove_index(epre, i as int);
                        assert(self.entries@ == epre.remove(i as int));
                        assert(removed@ == rpre.push(child));
                        assert(queue@ == qpre.push(child.hash));
                        assert(qpre[0] == front);
                        assert(qpre.contains(front));
                        assert(epre[i as int].hash == child.hash);
                        assert(has_entry(epre, child.hash));
                        assert(has_entry(e0, child.hash));
                        assert(entry_at(epre, child.hash) == child);
                        assert(entry_at(e0, child.hash) == child);
                        if front == p0 {
                            lemma_desc_base(e0, p0, child.hash);
                        } else {
                            assert(removed_has(rpre, front));
                            let j = choose|j: int| 0 <= j < rpre.len() && rpre[j].hash == front;
                            assert(is_descendant(e0, p0, front));
                            lemma_desc_step(e0, p0, front, child.hash);
                        }
                        assert(is_descendant(e0, p0, child.hash));
                        assert(removed@[rpre.len() as int].hash == child.hash);
                        // the freshly removed child follows its parent
                        assert forall|k: int|
                            0 <= k < removed@.len() implies (#[trigger] removed@[k]).parent_hash
                            == p0 || (exists|j: int|
                            0 <= j < k && (#[trigger] removed@[j]).hash
                                == removed@[k].parent_hash) by {
                            if k < rpre.len() {
                                assert(removed@[k] == rpre[k]);
                                if rpre[k].parent_hash != p0 {
                                    let j = choose|j: int|
                                        0 <= j < k && rpre[j].hash == rpre[k].parent_hash;
                                    assert(removed@[j].hash == removed@[k].parent_hash);
                                }
                            } else {
                                assert(removed@[k] == child);
                                if front != p0 {
                                    let j = choose|j: int|
                                        0 <= j < rpre.len() && rpre[j].hash == front;
                                    assert(removed@[j].hash == child.parent_hash);
                                }
                            }
                        }
                        assert(removed_has(removed@, child.hash));
                        assert(!removed_has(rpre, child.hash));
                        assert forall|h: Byte32| #[trigger]
                            removed_has(removed@, h) implies (removed_has(rpre, h) || h
                            == child.hash) by {
                            let j = choose|j: int|
                                0 <= j < removed@.len() && removed@[j].hash == h;
                            if j < rpre.len() {
                                assert(rpre[j].hash == h);
                            }
                        }
                        assert forall|h: Byte32| removed_has(rpre, h) implies removed_has(
                            removed@,
                            h,
                        ) by {
                            let j = choose|j: int| 0 <= j < rpre.len() && rpre[j].hash == h;
                            assert(removed@[j].hash == h);
                        }
                        // entries are the old ones minus the removed ones
                        assert forall|h: Byte32| #[trigger]
                            has_entry(self.entries@, h) <==> (has_entry(e0, h) && !removed_has(
                            removed@,
                            h,
                        )) by {
                            assert(has_entry(self.entries@, h) <==> (has_entry(epre, h) && h
                                != child.hash));
                            assert(has_entry(epre, h) <==> (has_entry(e0, h) && !removed_has(
                                rpre,
                                h,
                            )));
                        }
                        // soundness of each removed record
                        assert forall|j: int| 0 <= j < removed@.len() implies is_descendant(
                            e0,
                            p0,
                            (#[trigger] removed@[j]).hash,
                        ) && removed@[j] == entry_at(e0, removed@[j].hash) by {
                            if j < rpre.len() {
                                assert(removed@[j] == rpre[j]);
                            }
                        }
                        // no duplicate removed hashes
                        assert forall|j: int, k: int|
                            0 <= j < k < removed@.len() implies removed@[j].hash
                            != removed@[k].hash by {
                            if k == rpre.len() {
                                assert(removed@[j] == rpre[j]);
                                if rpre[j].hash == child.hash {
                                    assert(removed_has(rpre, child.hash));
                                }
                            } else {
                                assert(removed@[j] == rpre[j] && removed@[k] == rpre[k]);
                            }
                        }
                        // queue membership
                        assert forall|k: int|
                            0 <= k < queue@.len() implies (#[trigger] queue@[k] == p0
                            || removed_has(removed@, queue@[k])) by {
                            if k < qpre.len() {
                                assert(queue@[k] == qpre[k]);
                                if qpre[k] != p0 {
                                    assert(removed_has(rpre, qpre[k]));
                                }
                            } else {
                                assert(queue@[k] == child.hash);
                            }
                        }
                        // frontier
                        assert forall|h: Byte32|
                            #[trigger] has_entry(self.entries@, h) && (entry_at(self.entries@,
                                h,
                            ).parent_hash == p0 || removed_has(removed@, entry_at(self.entries@,
                                h,
                            ).parent_hash)) implies queue@.contains(entry_at(self.entries@,
                            h,
                        ).parent_hash) by {
                            let par = entry_at(self.entries@, h).parent_hash;
                            if par == child.hash {
                                assert(queue@[queue@.len() - 1] == child.hash);
                            } else {
                                assert(has_entry(epre, h));
                                assert(entry_at(epre, h) == entry_at(self.entries@, h));
                                if removed_has(removed@, par) {
                                    assert(removed_has(rpre, par));
                                }
                                assert(qpre.contains(par));
                                let k = choose|k: int| 0 <= k < qpre.len() && qpre[k] == par;
                                assert(queue@[k] == par);
                            }
                        }
                        // no entry is its own parent, still
                        assert forall|idx: int|
                            0 <= idx < self.entries@.len() implies (#[trigger] self.entries@[idx]).hash
                            != self.entries@[idx].parent_hash by {
                            if idx < i {
                                assert(self.entries@[idx] == epre[idx]);
                            } else {
                                assert(self.entries@[idx] == epre[idx + 1]);
                            }
                        }
                    }
                }
                None => {
                    queue.remove(0);
                    proof {
                        assert(queue@ == qpre.remove(0));
                        assert forall|h: Byte32|
                            #[trigger] has_entry(self.entries@, h) && (entry_at(self.entries@,
                                h,
                            ).parent_hash == p0 || removed_has(removed@, entry_at(self.entries@,
                                h,
                            ).parent_hash)) implies queue@.contains(entry_at(self.entries@,
                            h,
                        ).parent_hash) by {
                            let par = entry_at(self.entries@, h).parent_hash;
                            let jj = choose|j: int|
                                0 <= j < self.entries@.len() && self.entries@[j].hash == h;
                            lemma_entry_at(self.entries@, jj);
                            assert(self.entries@[jj].parent_hash == par);
                            assert(par != front);
                            assert(qpre.contains(par));
                            let k = choose|k: int| 0 <= k < qpre.len() && qpre[k] == par;
                            assert(k != 0);
                            assert(queue@[k - 1] == par);
                        }
                        assert forall|k: int|
                            0 <= k < queue@.len() implies (#[trigger] queue@[k] == p0
                            || removed_has(removed@, queue@[k])) by {
                            assert(queue@[k] == qpre[k + 1]);
                        }
                    }
                }
            }
        }
        proof {
            let ef = self.entries@;
            // completeness: every descendant was removed
            assert forall|h: Byte32| is_descendant(e0, p0, h) implies removed_has(
                removed@,
                h,
            ) by {
                let chain = choose|chain: Seq<Byte32>|
                    is_chain_from(e0, p0, chain) && chain.last() == h;
                assert forall|hh: Byte32| #[trigger] has_entry(ef, hh) implies !(entry_at(
                    ef,
                    hh,
                ).parent_hash == p0 || removed_has(removed@, entry_at(ef, hh).parent_hash)) by {
                    if entry_at(ef, hh).parent_hash == p0 || removed_has(
                        removed@,
                        entry_at(ef, hh).parent_hash,
                    ) {
                        assert(queue@.contains(entry_at(ef, hh).parent_hash));
                    }
                }
                lemma_chain_removed(e0, ef, removed@, p0, chain, chain.len() - 1);
            }
            // entries: exactly the non-descendants survive
            assert forall|h: Byte32| #[trigger] has_entry(ef, h) implies (has_entry(e0, h)
                && !is_descendant(e0, p0, h)) by {
                if removed_has(removed@, h) {
                    assert(!has_entry(ef, h));
                }
            }
            assert forall|h: Byte32| has_entry(e0, h) && !is_descendant(e0, p0, h) implies
                #[trigger] has_entry(ef, h) by {
                if removed_has(removed@, h) {
                    let j = choose|j: int| 0 <= j < removed@.len() && removed@[j].hash == h;
                    assert(is_descendant(e0, p0, removed@[j].hash));
                }
            }
            // leaders: exactly the old ones minus the flushed root
            assert forall|q: Byte32| #[trigger] self.leaders@.contains(q) implies is_leader(
                ef,
                q,
            ) by {
                assert(old(self).leaders@.contains(q) && q != p0);
                assert(is_leader(e0, q));
                let i = choose|i: int| 0 <= i < e0.len() && e0[i].parent_hash == q;
                lemma_entry_at(e0, i);
                let c = e0[i];
                // a child of another leader never hangs below p0
                assert(!is_descendant(e0, p0, c.hash)) by {
                    if is_descendant(e0, p0, c.hash) {
                        let chain = choose|chain: Seq<Byte32>|
                            is_chain_from(e0, p0, chain) && chain.last() == c.hash;
                        if chain.len() == 1 {
                            assert(entry_at(e0, chain[0]).parent_hash == p0);
                        } else {
                            let prev = chain[chain.len() - 2];
                            assert(entry_at(e0, chain.last()).parent_hash == prev);
                            assert(has_entry(e0, prev));
                        }
                    }
                }
                assert(has_entry(ef, c.hash));
                assert(entry_at(ef, c.hash) == c);
                let jj = choose|j: int| 0 <= j < ef.len() && ef[j].hash == c.hash;
                lemma_entry_at(ef, jj);
                assert(ef[jj].parent_hash == q);
                assert(has_child(ef, q));
                assert(!has_entry(ef, q));
            }
            assert forall|q: Byte32| is_leader(ef, q) implies #[trigger] self.leaders@.contains(
                q,
            ) by {
                let i = choose|i: int| 0 <= i < ef.len() && ef[i].parent_hash == q;
                lemma_entry_at(ef, i);
                let c = ef[i];
                assert(has_entry(ef, c.hash));
                assert(entry_at(ef, c.hash) == c);
                // q cannot be the flushed root: its children are gone
                assert(q != p0) by {
                    if q == p0 {
                        assert(entry_at(ef, c.hash).parent_hash == p0);
                        assert(queue@.contains(p0));
                    }
                }
                // q is not an entry of the old pool either, or it would have
                // been removed as a descendant and its children with it
                assert(!has_entry(e0, q)) by {
                    if has_entry(e0, q) {
                        if removed_has(removed@, q) {
                            let j = choose|j: int|
                                0 <= j < removed@.len() && removed@[j].hash == q;
                            assert(is_descendant(e0, p0, q));
                            assert(has_entry(e0, c.hash) && entry_at(e0, c.hash) == c);
                            lemma_desc_step(e0, p0, q, c.hash);
                            assert(removed_has(removed@, c.hash));
                            assert(!has_entry(ef, c.hash));
                        } else {
                            assert(has_entry(ef, q));
                        }
                    }
                }
                assert(has_child(e0, q)) by {
                    assert(has_entry(e0, c.hash));
                    assert(entry_at(e0, c.hash) == c);
                    let k = choose|k: int| 0 <= k < e0.len() && e0[k].hash == c.hash;
                    lemma_entry_at(e0, k);
                    assert(e0[k].parent_hash == q);
                }
                assert(is_leader(e0, q));
                assert(old(self).leaders@.contains(q));
            }
            assert(self.wf());
            // the flushed root led at least one child, which was removed
            if old(self).leaders@.contains(p0) {
                assert(is_leader(e0, p0));
                let i = choose|i: int| 0 <= i < e0.len() && e0[i].parent_hash == p0;
                lemma_entry_at(e0, i);
                lemma_desc_base(e0, p0, e0[i].hash);
                assert(removed_has(removed@, e0[i].hash));
            }
        }
        removed
    }

    /// The running state of an eviction sweep over a pool that started as
    /// `s0` with leaders `l0`: the current entries are exactly the starting
    /// ones minus the duplicate-free `removed`, contents unchanged, and
    /// every removed record hung below a leader with an expired child. Kept
    /// opaque so the sweep's loop carries one fact instead of four
    /// quantifiers.
    #[verifier::opaque]
    pub open spec fn clean_trace(
        s0: Seq<LonelyBlock>,
        l0: Seq<Byte32>,
        cur: Seq<LonelyBlock>,
        removed: Seq<LonelyBlock>,
        tip_epoch: u64,
    ) -> bool {
        &&& (forall|h: Byte32|
            #[trigger] has_entry(cur, h) <==> (has_entry(s0, h) && !removed_has(removed, h)))
        &&& (forall|h: Byte32|
            has_entry(cur, h) ==> #[trigger] entry_at(cur, h) == entry_at(s0, h))
        &&& (forall|j: int|
            0 <= j < removed.len() ==> has_entry(s0, (#[trigger] removed[j]).hash) && removed[j]
                == entry_at(s0, removed[j].hash) && evicted_from_expired(
                s0,
                l0,
                tip_epoch,
                removed[j].hash,
            ))
        &&& (forall|j: int, k: int|
            0 <= j < k < removed.len() ==> removed[j].hash != removed[k].hash)
    }

    /// One eviction round composes with the history so far: entries shrink
    /// by exactly the flushed part, contents trace back to the starting
    /// pool, and the accumulated result stays duplicate-free.
    proof fn lemma_clean_step(
        s0: Seq<LonelyBlock>,
        l0: Seq<Byte32>,
        epre: Seq<LonelyBlock>,
        ecur: Seq<LonelyBlock>,
        rpre: Seq<LonelyBlock>,
        pseq: Seq<LonelyBlock>,
        tip_epoch: u64,
    )
        requires
            InnerPool::clean_trace(s0, l0, epre, rpre, tip_epoch),
            forall|h: Byte32|
                #[trigger] has_entry(ecur, h) <==> (has_entry(epre, h) && !removed_has(pseq, h)),
            forall|h: Byte32|
                has_entry(ecur, h) ==> #[trigger] entry_at(ecur, h) == entry_at(epre, h),
            forall|j: int|
                0 <= j < pseq.len() ==> has_entry(epre, (#[trigger] pseq[j]).hash) && pseq[j]
                    == entry_at(epre, pseq[j].hash) && evicted_from_expired(
                    s0,
                    l0,
                    tip_epoch,
                    pseq[j].hash,
                ),
            forall|j: int, k: int| 0 <= j < k < pseq.len() ==> pseq[j].hash != pseq[k].hash,
        ensures
            InnerPool::clean_trace(s0, l0, ecur, rpre + pseq, tip_epoch),
    {
        reveal(InnerPool::clean_trace);
        let all = rpre + pseq;
        assert forall|h: Byte32| #[trigger]
            removed_has(all, h) <==> (removed_has(rpre, h) || removed_has(pseq, h)) by {
            if removed_has(all, h) {
                let j = choose|j: int| 0 <= j < all.len() && all[j].hash == h;
                if j < rpre.len() {
                    assert(rpre[j].hash == h);
                } else {
                    assert(pseq[j - rpre.len()].hash == h);
                }
            }
            if removed_has(rpre, h) {
                let j = choose|j: int| 0 <= j < rpre.len() && rpre[j].hash == h;
                assert(all[j].hash == h);
            }
            if removed_has(pseq, h) {
                let j = choose|j: int| 0 <= j < pseq.len() && pseq[j].hash == h;
                assert(all[rpre.len() + j].hash == h);
            }
        }
        assert forall|j: int| 0 <= j < all.len() implies has_entry(
            s0,
            (#[trigger] all[j]).hash,
        ) && all[j] == entry_at(s0, all[j].hash) && evicted_from_expired(
            s0,
            l0,
            tip_epoch,
            all[j].hash,
        ) by {
            if j < rpre.len() {
                assert(all[j] == rpre[j]);
            } else {
                let jj = j - rpre.len();
                assert(all[j] == pseq[jj]);
                assert(has_entry(epre, pseq[jj].hash));
                assert(pseq[jj] == entry_at(epre, pseq[jj].hash));
                assert(entry_at(epre, pseq[jj].hash) == entry_at(s0, pseq[jj].hash));
            }
        }
        assert forall|j: int, k: int| 0 <= j < k < all.len() implies all[j].hash
            != all[k].hash by {
            if k < rpre.len() {
                assert(all[j] == rpre[j] && all[k] == rpre[k]);
            } else if j >= rpre.len() {
                assert(all[j] == pseq[j - rpre.len()] && all[k] == pseq[k - rpre.len()]);
            } else {
                assert(all[j] == rpre[j] && all[k] == pseq[k - rpre.len()]);
                assert(!has_entry(epre, rpre[j].hash));
                assert(has_entry(epre, pseq[k - rpre.len()].hash)) by {
                    assert(removed_has(pseq, pseq[k - rpre.len()].hash));
                }
            }
        }
    }

    /// Flush the subtree of one leader whose first child is expired, and
    /// extend the sweep's trace: relative to the starting pool `s0` with
    /// leaders `l0`, the removals so far were `rpre`, and this flush appends
    /// its own part to them.
    #[verifier::rlimit(100)]
    #[verifier::spinoff_prover]
    fn flush_expired(
        &mut self,
        leader: Byte32,
        tip_epoch: u64,
        Ghost(s0): Ghost<Seq<LonelyBlock>>,
        Ghost(l0): Ghost<Seq<Byte32>>,
        Ghost(rpre): Ghost<Seq<LonelyBlock>>,
    ) -> (part: Vec<LonelyBlock>)
        requires
            old(self).wf(),
            old(self).leaders_view().contains(leader),
            expired(first_child(old(self).entries_view(), leader), tip_epoch),
            unique_hashes(s0),
            InnerPool::clean_trace(s0, l0, old(self).entries_view(), rpre, tip_epoch),
            forall|q: Byte32|
                #[trigger] old(self).leaders_view().contains(q) ==> l0.contains(q),
        ensures
            final(self).wf(),
            InnerPool::clean_trace(s0, l0, final(self).entries_view(), rpre + part@, tip_epoch),
            final(self).entries_view().len() + part@.len() == old(self).entries_view().len(),
            part@.len() >= 1,
            forall|q: Byte32|
                #[trigger] final(self).leaders_view().contains(q) ==> old(
                    self,
                ).leaders_view().contains(q),
    {
        let ghost epre = self.entries@;
        proof {
            reveal(InnerPool::clean_trace);
            assert(is_leader(epre, leader));
            lemma_expired_first_child(epre, leader, tip_epoch);
        }
        let part = self.remove_blocks_by_parent(&leader);
        proof {
            reveal(InnerPool::clean_trace);
            let ecur = self.entries@;
            let pseq = part@;
            // the flushed part is exactly the subtree of `leader`
            assert forall|h: Byte32| #[trigger]
                removed_has(pseq, h) <==> (has_entry(epre, h) && is_descendant(
                epre,
                leader,
                h,
            )) by {
                if removed_has(pseq, h) {
                    let j = choose|j: int| 0 <= j < pseq.len() && pseq[j].hash == h;
                    assert(is_descendant(epre, leader, pseq[j].hash));
                    lemma_desc_is_entry(epre, leader, h);
                }
            }
            assert forall|h: Byte32| #[trigger]
                has_entry(ecur, h) <==> (has_entry(epre, h) && !removed_has(pseq, h)) by {}
            // the leader is a leader of the starting pool too, with an
            // expired child there
            assert(l0.contains(leader));
            assert(has_expired_child(s0, leader, tip_epoch)) by {
                let w = choose|w: int|
                    0 <= w < epre.len() && (#[trigger] epre[w]).parent_hash == leader
                        && epre[w].epoch_number + EXPIRED_EPOCH < tip_epoch;
                assert(has_entry(epre, epre[w].hash)) by {
                    assert(epre[w].hash == epre[w].hash);
                }
                lemma_entry_at(epre, w);
                assert(entry_at(s0, epre[w].hash) == epre[w]);
                assert(has_entry(s0, epre[w].hash));
                let w0 = choose|w0: int| 0 <= w0 < s0.len() && s0[w0].hash == epre[w].hash;
                lemma_entry_at(s0, w0);
                assert(s0[w0] == epre[w]);
            }
            // each flushed record traces back to the starting pool
            assert forall|j: int| 0 <= j < pseq.len() implies has_entry(
                epre,
                (#[trigger] pseq[j]).hash,
            ) && pseq[j] == entry_at(epre, pseq[j].hash) && evicted_from_expired(
                s0,
                l0,
                tip_epoch,
                pseq[j].hash,
            ) by {
                assert(is_descendant(epre, leader, pseq[j].hash));
                lemma_desc_is_entry(epre, leader, pseq[j].hash);
                lemma_desc_mono(epre, s0, leader, pseq[j].hash);
                reveal(evicted_from_expired);
            }
            InnerPool::lemma_clean_step(s0, l0, epre, ecur, rpre, pseq, tip_epoch);
        }
        part
    }

    /// Evict expired subtrees: as long as some leader's first child is
    /// expired (its epoch plus `EXPIRED_EPOCH` is below `tip_epoch`), flush
    /// that leader's whole subtree. The result is exactly what was evicted,
    /// and every evicted record hung below a leader with an expired child.
    #[verifier::rlimit(100)]
    #[verifier::spinoff_prover]
    pub fn clean_expired_blocks(&mut self, tip_epoch: u64) -> (removed: Vec<LonelyBlock>)
        requires
            old(self).wf(),
        ensures
            final(self).wf(),
            // survivors are exactly the old entries not evicted, unchanged
            forall|h: Byte32|
                #[trigger] has_entry(final(self).entries_view(), h) <==> (has_entry(
                    old(self).entries_view(),
                    h,
                ) && !removed_has(removed@, h)),
            forall|h: Byte32|
                has_entry(final(self).entries_view(), h) ==> #[trigger] entry_at(
                    final(self).entries_view(),
                    h,
                ) == entry_at(old(self).entries_view(), h),
            // everything evicted was an entry below a leader with an
            // expired child
            forall|j: int|
                0 <= j < removed@.len() ==> has_entry(
                    old(self).entries_view(),
                    (#[trigger] removed@[j]).hash,
                ) && removed@[j] == entry_at(old(self).entries_view(), removed@[j].hash)
                    && evicted_from_expired(
                    old(self).entries_view(),
                    old(self).leaders_view(),
                    tip_epoch,
                    removed@[j].hash,
                ),
            forall|j: int, k: int|
                0 <= j < k < removed@.len() ==> removed@[j].hash != removed@[k].hash,
            final(self).entries_view().len() + removed@.len() == old(self).entries_view().len(),
            // no remaining leader has an expired first child
            forall|q: Byte32|
                #[trigger] final(self).leaders_view().contains(q) ==> !expired(
                    first_child(final(self).entries_view(), q),
                    tip_epoch,
                ),
            forall|q: Byte32|
                #[trigger] final(self).leaders_view().contains(q) ==> old(
                    self,
                ).leaders_view().contains(q),
    {
        let ghost s0 = self.entries@;
        let ghost l0 = self.leaders@;
        let mut removed: Vec<LonelyBlock> = Vec::new();
        proof {
            assert(unique_hashes(s0)) by {
                assert(unique_hashes(old(self).entries_view()));
            }
            assert(InnerPool::clean_trace(s0, l0, self.entries@, removed@, tip_epoch)) by {
                reveal(InnerPool::clean_trace);
            }
        }
        loop
            invariant
                self.wf(),
                s0 == old(self).entries@,
                l0 == old(self).leaders@,
                unique_hashes(s0),
                InnerPool::clean_trace(s0, l0, self.entries@, removed@, tip_epoch),
                self.entries@.len() + removed@.len() == s0.len(),
                forall|q: Byte32| #[trigger] self.leaders@.contains(q) ==> l0.contains(q),
            decreases self.entries@.len(),
        {
            match self.find_expired_leader(tip_epoch) {
                Some(leader) => {
                    let ghost rpre = removed@;
                    let mut part = self.flush_expired(
                        leader,
                        tip_epoch,
                        Ghost(s0),
                        Ghost(l0),
                        Ghost(rpre),
                    );
                    let ghost pseq = part@;
                    removed.append(&mut part);
                    proof {
                        assert(removed@ == rpre + pseq);
                    }
                }
                None => {
                    proof {
                        reveal(InnerPool::clean_trace);
                    }
                    return removed;
                }
            }
        }
    }

    /// Find a leader whose first child in entry order is expired.
    fn find_expired_leader(&self, tip_epoch: u64) -> (r: Option<Byte32>)
        requires
            self.wf(),
        ensures
            match r {
                Some(p) => self.leaders_view().contains(p) && expired(
                    first_child(self.entries_view(), p),
                    tip_epoch,
                ),
                None => forall|q: Byte32|
                    #[trigger] self.leaders_view().contains(q) ==> !expired(
                        first_child(self.entries_view(), q),
                        tip_epoch,
                    ),
            },
    {
        let mut i: usize = 0;
        while i < self.leaders.len()
            invariant
                self.wf(),
                0 <= i <= self.leaders@.len(),
                forall|j: int|
                    0 <= j < i ==> !expired(
                        first_child(self.entries@, #[trigger] self.leaders@[j]),
                        tip_epoch,
                    ),
            decreases self.leaders@.len() - i,
        {
            let leader = self.leaders[i];
            if self.need_clean(&leader, tip_epoch) {
                return Some(leader);
            }
            i += 1;
        }
        proof {
            assert forall|q: Byte32| #[trigger] self.leaders@.contains(q) implies !expired(
                first_child(self.entries@, q),
                tip_epoch,
            ) by {
                let j = choose|j: int| 0 <= j < self.leaders@.len() && self.leaders@[j] == q;
            }
        }
        None
    }

    /// Whether the first block under `parent_hash` is expired.
    fn need_clean(&self, parent_hash: &Byte32, tip_epoch: u64) -> (r: bool)
        ensures
            r == expired(first_child(self.entries_view(), *parent_hash), tip_epoch),
    {
        let mut i: usize = 0;
        while i < self.entries.len()
            invariant
                0 <= i <= self.entries@.len(),
                forall|j: int| 0 <= j < i ==> self.entries@[j].parent_hash != parent_hash,
            decreases self.entries@.len() - i,
        {
            if self.entries[i].parent_hash == *parent_hash {
                proof {
                    lemma_first_child(self.entries@, *parent_hash, i as int);
                }
                let e = self.entries[i].epoch_number;
                return tip_epoch > EXPIRED_EPOCH && e < tip_epoch - EXPIRED_EPOCH;
            }
            i += 1;
        }
        false
    }
}

/// Whether an orphan record is expired at `tip_epoch`.
pub open spec fn expired(b: Option<LonelyBlock>, tip_epoch: u64) -> bool {
    match b {
        Some(b) => b.epoch_number + EXPIRED_EPOCH < tip_epoch,
        None => false,
    }
}

/// The first entry (in entry order) whose parent is `p`, if any.
pub open spec fn first_child(s: Seq<LonelyBlock>, p: Byte32) -> Option<LonelyBlock> {
    if has_child(s, p) {
        Some(s[first_child_index(s, p)])
    } else {
        None
    }
}

/// The index of the first entry whose parent is `p`.
pub open spec fn first_child_index(s: Seq<LonelyBlock>, p: Byte32) -> int {
    choose|i: int|
        0 <= i < s.len() && s[i].parent_hash == p && (forall|j: int|
            0 <= j < i ==> s[j].parent_hash != p)
}

proof fn lemma_first_child(s: Seq<LonelyBlock>, p: Byte32, i: int)
    requires
        0 <= i < s.len(),
        s[i].parent_hash == p,
        forall|j: int| 0 <= j < i ==> s[j].parent_hash != p,
    ensures
        first_child(s, p) == Some(s[i]),
{
    assert(has_child(s, p));
    let k = first_child_index(s, p);
    assert(0 <= k < s.len() && s[k].parent_hash == p && (forall|j: int|
        0 <= j < k ==> s[j].parent_hash != p));
    if k < i {
        assert(s[k].parent_hash != p);
    }
    if i < k {
        assert(s[i].parent_hash != p);
    }
}

proof fn lemma_sub_len(a: Seq<LonelyBlock>, b: Seq<LonelyBlock>)
    requires
        unique_hashes(a),
        unique_hashes(b),
        forall|h: Byte32| #[trigger] has_entry(a, h) ==> has_entry(b, h),
        exists|h: Byte32| has_entry(b, h) && !has_entry(a, h),
    ensures
        a.len() < b.len(),
    decreases a.len(),
{
    if a.len() == 0 {
        let h = choose|h: Byte32| has_entry(b, h) && !has_entry(a, h);
        assert(b.len() > 0);
    } else {
        let e = a[a.len() - 1];
        assert(has_entry(a, e.hash));
        assert(has_entry(b, e.hash));
        let j = choose|j: int| 0 <= j < b.len() && b[j].hash == e.hash;
        let a2 = a.drop_last();
        let b2 = b.remove(j);
        lemma_remove_index(b, j);
        assert(unique_hashes(a2));
        assert forall|h: Byte32| #[trigger] has_entry(a2, h) implies has_entry(b2, h) by {
            let i = choose|i: int| 0 <= i < a2.len() && a2[i].hash == h;
            assert(a[i].hash == h);
            assert(has_entry(a, h));
            assert(h != e.hash) by {
                if h == e.hash {
                    assert(a[i].hash == a[a.len() - 1].hash);
                }
            }
            assert(has_entry(b, h));
        }
        let w = choose|h: Byte32| has_entry(b, h) && !has_entry(a, h);
        assert(has_entry(b2, w) && !has_entry(a2, w)) by {
            assert(w != e.hash);
            assert forall|h: Byte32| has_entry(a2, h) implies has_entry(a, h) by {
                let i = choose|i: int| 0 <= i < a2.len() && a2[i].hash == h;
                assert(a[i].hash == h);
            }
        }
        lemma_sub_len(a2, b2);
    }
}

/// Some first index with parent `q` exists as soon as any index does.
proof fn lemma_first_exists(s: Seq<LonelyBlock>, q: Byte32, k: int)
    requires
        0 <= k < s.len(),
        s[k].parent_hash == q,
    ensures
        exists|i: int|
            0 <= i <= k && s[i].parent_hash == q && (forall|j: int|
                0 <= j < i ==> s[j].parent_hash != q),
    decreases k,
{
    if exists|j: int| 0 <= j < k && s[j].parent_hash == q {
        let j = choose|j: int| 0 <= j < k && s[j].parent_hash == q;
        lemma_first_exists(s, q, j);
    }
}

/// Expiry law, per remaining entry: take any entry `s[i]` that hangs below
/// a leader `q` in a well-formed pool. If expiry at `tip_epoch` is uniform
/// over `q`'s subtree (on a real chain, descendants are minted in the same
/// epoch as their subtree or later), and `q`'s first child is not expired —
/// the state `clean_expired_blocks` leaves every leader in — then the entry
/// itself is not expired: `epoch_number + EXPIRED_EPOCH >= tip_epoch`.
pub proof fn lemma_orphan_expiry(pool: InnerPool, tip_epoch: u64, i: int, q: Byte32)
    requires
        pool.wf(),
        0 <= i < pool.entries_view().len(),
        pool.leaders_view().contains(q),
        is_descendant(pool.entries_view(), q, pool.entries_view()[i].hash),
        forall|j: int|
            #![trigger pool.entries_view()[j]]
            0 <= j < pool.entries_view().len() && is_descendant(
                pool.entries_view(),
                q,
                pool.entries_view()[j].hash,
            ) ==> ((pool.entries_view()[j].epoch_number + EXPIRED_EPOCH < tip_epoch) <==> (
            pool.entries_view()[i].epoch_number + EXPIRED_EPOCH < tip_epoch)),
        !expired(first_child(pool.entries_view(), q), tip_epoch),
    ensures
        pool.entries_view()[i].epoch_number + EXPIRED_EPOCH >= tip_epoch,
{
    let s = pool.entries_view();
    assert(is_leader(s, q));
    let k = choose|k: int| 0 <= k < s.len() && s[k].parent_hash == q;
    lemma_first_exists(s, q, k);
    let f = choose|f: int|
        0 <= f <= k && s[f].parent_hash == q && (forall|j: int|
            0 <= j < f ==> s[j].parent_hash != q);
    lemma_first_child(s, q, f);
    assert(first_child(s, q) == Some(s[f]));
    assert(!expired(Some(s[f]), tip_epoch));
    lemma_entry_at(s, f);
    lemma_desc_base(s, q, s[f].hash);
    assert(is_descendant(s, q, s[f].hash));
    assert((s[f].epoch_number + EXPIRED_EPOCH < tip_epoch) <==> (s[i].epoch_number + EXPIRED_EPOCH
        < tip_epoch));
}

/// The orphan block pool as the chain service sees it. In the running node
/// a single lock guards the inner pool; verification is about the state
/// transitions themselves, so the methods take the pool exclusively.
pub struct OrphanBlockPool {
    inner: InnerPool,
}

impl OrphanBlockPool {
    /// The orphan entries, for specifications.
    pub closed spec fn entries_view(self) -> Seq<LonelyBlock> {
        self.inner.entries_view()
    }

    /// The leaders, for specifications.
    pub closed spec fn leaders_view(self) -> Seq<Byte32> {
        self.inner.leaders_view()
    }

    /// Well-formed: hashes are unique, no block is its own parent, and the
    /// leaders are exactly the roots of the orphaned subtrees.
    pub open spec fn wf(self) -> bool {
        pool_shape(self.entries_view(), self.leaders_view())
    }

    /// An empty pool; `capacity` is only a sizing hint.
    pub fn with_capacity(capacity: usize) -> (r: OrphanBlockPool)
        ensures
            r.wf(),
            r.entries_view() == Seq::<LonelyBlock>::empty(),
            r.leaders_view() == Seq::<Byte32>::empty(),
    {
        OrphanBlockPool { inner: InnerPool::with_capacity(capacity) }
    }

    /// Insert an orphaned block whose parent is being requested. A record
    /// already stored under the same hash is replaced by the newer arrival;
    /// the new block's parent becomes a leader unless it is an orphan entry
    /// itself, and the new block stops being a leader if it was one.
    pub fn insert(&mut self, lonely_block: LonelyBlock)
        requires
            old(self).wf(),
            lonely_block.hash != lonely_block.parent_hash,
        ensures
            final(self).wf(),
            forall|h2: Byte32|
                #[trigger] has_entry(final(self).entries_view(), h2) <==> (has_entry(
                    old(self).entries_view(),
                    h2,
                ) || h2 == lonely_block.hash),
            entry_at(final(self).entries_view(), lonely_block.hash) == lonely_block,
            forall|h2: Byte32|
                has_entry(final(self).entries_view(), h2) && h2 != lonely_block.hash
                    ==> #[trigger] entry_at(final(self).entries_view(), h2) == entry_at(
                    old(self).entries_view(),
                    h2,
                ),
            !has_entry(old(self).entries_view(), lonely_block.hash) ==> final(self).entries_view()
                == old(self).entries_view().push(lonely_block),
            !final(self).leaders_view().contains(lonely_block.hash),
            final(self).leaders_view().contains(lonely_block.parent_hash) <==> !has_entry(
                final(self).entries_view(),
                lonely_block.parent_hash,
            ),
    {
        self.inner.insert(lonely_block);
    }

    /// Flush the whole subtree rooted at `parent_hash`. If `parent_hash` is
    /// not a leader nothing happens and the result is empty. Otherwise the
    /// result holds exactly the descendants of `parent_hash` — every record
    /// after the one it hangs from — and no descendant remains.
    pub fn remove_blocks_by_parent(&mut self, parent_hash: &Byte32) -> (removed: Vec<LonelyBlock>)
        requires
            old(self).wf(),
        ensures
            final(self).wf(),
            final(self).entries_view().len() + removed@.len() == old(self).entries_view().len(),
            !old(self).leaders_view().contains(*parent_hash) ==> {
                &&& final(self).entries_view() == old(self).entries_view()
                &&& final(self).leaders_view() == old(self).leaders_view()
                &&& removed@.len() == 0
            },
            old(self).leaders_view().contains(*parent_hash) ==> {
                &&& (forall|h: Byte32|
                    #[trigger] has_entry(final(self).entries_view(), h) <==> (has_entry(
                        old(self).entries_view(),
                        h,
                    ) && !is_descendant(old(self).entries_view(), *parent_hash, h)))
                &&& (forall|h: Byte32|
                    has_entry(final(self).entries_view(), h) ==> #[trigger] entry_at(
                        final(self).entries_view(),
                        h,
                    ) == entry_at(old(self).entries_view(), h))
                &&& (forall|j: int|
                    0 <= j < removed@.len() ==> is_descendant(
                        old(self).entries_view(),
                        *parent_hash,
                        (#[trigger] removed@[j]).hash,
                    ) && removed@[j] == entry_at(old(self).entries_view(), removed@[j].hash))
                &&& (forall|h: Byte32|
                    is_descendant(old(self).entries_view(), *parent_hash, h) ==> removed_has(
                        removed@,
                        h,
                    ))
                &&& (forall|j: int, k: int|
                    0 <= j < k < removed@.len() ==> removed@[j].hash != removed@[k].hash)
                &&& (forall|q: Byte32|
                    #[trigger] final(self).leaders_view().contains(q) <==> (old(
                        self,
                    ).leaders_view().contains(q) && q != parent_hash))
                &&& removed@.len() >= 1
                &&& (forall|k: int|
                    0 <= k < removed@.len() ==> (#[trigger] removed@[k]).parent_hash
                        == parent_hash || (exists|j: int|
                        0 <= j < k && (#[trigger] removed@[j]).hash == removed@[k].parent_hash))
            },
    {
        self.inner.remove_blocks_by_parent(parent_hash)
    }

    /// The orphan record with hash `hash`, if it is in the pool. In the
    /// node, the caller then loads the full block from the store.
    pub fn get_block(&self, hash: &Byte32) -> (r: Option<LonelyBlock>)
        requires
            self.wf(),
        ensures
            match r {
                Some(b) => has_entry(self.entries_view(), *hash) && b == entry_at(
                    self.entries_view(),
                    *hash,
                ),
                None => !has_entry(self.entries_view(), *hash),
            },
    {
        self.inner.get_block(hash)
    }

    /// Evict expired subtrees; see `InnerPool::clean_expired_blocks`. The
    /// result is exactly what was evicted, and every evicted record hung
    /// below a leader with an expired child.
    pub fn clean_expired_blocks(&mut self, epoch: u64) -> (removed: Vec<LonelyBlock>)
        requires
            old(self).wf(),
        ensures
            final(self).wf(),
            forall|h: Byte32|
                #[trigger] has_entry(final(self).entries_view(), h) <==> (has_entry(
                    old(self).entries_view(),
                    h,
                ) && !removed_has(removed@, h)),
            forall|h: Byte32|
                has_entry(final(self).entries_view(), h) ==> #[trigger] entry_at(
                    final(self).entries_view(),
                    h,
                ) == entry_at(old(self).entries_view(), h),
            forall|j: int|
                0 <= j < removed@.len() ==> has_entry(
                    old(self).entries_view(),
                    (#[trigger] removed@[j]).hash,
                ) && removed@[j] == entry_at(old(self).entries_view(), removed@[j].hash)
                    && evicted_from_expired(
                    old(self).entries_view(),
                    old(self).leaders_view(),
                    epoch,
                    removed@[j].hash,
                ),
            forall|j: int, k: int|
                0 <= j < k < removed@.len() ==> removed@[j].hash != removed@[k].hash,
            final(self).entries_view().len() + removed@.len() == old(self).entries_view().len(),
            forall|q: Byte32|
                #[trigger] final(self).leaders_view().contains(q) ==> !expired(
                    first_child(final(self).entries_view(), q),
                    epoch,
                ),
            forall|q: Byte32|
                #[trigger] final(self).leaders_view().contains(q) ==> old(
                    self,
                ).leaders_view().contains(q),
    {
        self.inner.clean_expired_blocks(epoch)
    }

    /// Number of orphan entries in the pool.
    pub fn len(&self) -> (r: usize)
        ensures
            r == self.entries_view().len(),
    {
        self.inner.len()
    }

    /// A copy of the current leaders.
    pub fn clone_leaders(&self) -> (r: Vec<Byte32>)
        ensures
            r@ == self.leaders_view(),
    {
        self.inner.clone_leaders()
    }

    /// Number of leaders.
    pub fn leaders_len(&self) -> (r: usize)
        ensures
            r == self.leaders_view().len(),
    {
        self.inner.leaders_len()
    }
}

/// The forest shape of a well-formed pool (either the inner pool or its
/// public wrapper): a leader is never an entry, and every entry's parent is
/// either an entry itself or a leader.
pub proof fn lemma_orphan_pool_forest(entries: Seq<LonelyBlock>, leaders: Seq<Byte32>)
    requires
        pool_shape(entries, leaders),
    ensures
        forall|p: Byte32| #[trigger] leaders.contains(p) ==> !has_entry(entries, p),
        forall|i: int|
            0 <= i < entries.len() ==> has_entry(entries, (#[trigger] entries[i]).parent_hash)
                || leaders.contains(entries[i].parent_hash),
{
    assert forall|i: int| 0 <= i < entries.len() implies has_entry(
        entries,
        (#[trigger] entries[i]).parent_hash,
    ) || leaders.contains(entries[i].parent_hash) by {
        let p = entries[i].parent_hash;
        assert(has_child(entries, p));
        if !has_entry(entries, p) {
            assert(is_leader(entries, p));
        }
    }
}

} // verus!
