//! The transaction-pool map: a content-addressed store of transaction
//! entries with ancestor/descendant accounting over the in-pool dependency
//! graph.
//!
//! An entry's aggregates (`ancestors_*`, `descendants_*`) are a function of
//! the entries alone: an entry `p` is an ancestor of `e` when a chain of
//! in-pool spends leads from `e` up to `p`, and each aggregate is the
//! entry's own value plus the sum over its unique transitive ancestors
//! (descendants respectively). Every mutation re-establishes them.

use crate::sort_key::AncestorsScoreSortKey;
use crate::types::{short_id_of, Byte32, OutPoint, ProposalShortId};
use vstd::prelude::*;

verus! {

/// A transaction as the pool sees it: its hash, the outpoints it spends and
/// how many outputs it creates.
#[derive(Clone, Debug)]
pub struct Transaction {
    pub hash: Byte32,
    pub inputs: Vec<OutPoint>,
    pub outputs_count: u32,
}

/// A pool entry: the transaction with its resolved cost and fee, and the
/// aggregated weight of its ancestor and descendant bundles.
#[derive(Clone, Debug)]
pub struct TxEntry {
    pub tx: Transaction,
    pub cycles: u64,
    pub fee: u64,
    pub size: u64,
    pub timestamp: u64,
    pub ancestors_count: u64,
    pub ancestors_size: u64,
    pub ancestors_fee: u64,
    pub ancestors_cycles: u64,
    pub descendants_count: u64,
    pub descendants_size: u64,
    pub descendants_fee: u64,
    pub descendants_cycles: u64,
}

/// Why the pool refuses a transaction.
#[derive(Clone, Copy, Debug, PartialEq, Eq, Structural)]
pub enum Reject {
    /// The same transaction is already in the pool.
    Duplicate,
    /// Another pool transaction already spends this outpoint.
    Conflict(OutPoint),
    /// The entry's fee is below the pool's fee-rate floor.
    LowFeeRate,
    /// Admitting the entry would give it too many ancestors.
    TooManyAncestors,
    /// The pool's size budget is exhausted.
    PoolFull,
    /// The transaction waited as an orphan for too long.
    Expired,
}

/// The short id under which the pool stores an entry.
pub open spec fn id_of(e: TxEntry) -> ProposalShortId {
    short_id_of(e.tx.hash)
}

/// Whether some entry of `s` has short id `id`.
pub open spec fn has_id(s: Seq<TxEntry>, id: ProposalShortId) -> bool {
    exists|i: int| 0 <= i < s.len() && id_of(s[i]) == id
}

/// The index of the entry with short id `id`.
pub open spec fn idx_of(s: Seq<TxEntry>, id: ProposalShortId) -> int {
    choose|i: int| 0 <= i < s.len() && id_of(s[i]) == id
}

/// The entry of `s` with short id `id` (ids are unique).
pub open spec fn entry_of(s: Seq<TxEntry>, id: ProposalShortId) -> TxEntry {
    s[idx_of(s, id)]
}

/// No two entries share a short id.
pub open spec fn unique_ids(s: Seq<TxEntry>) -> bool {
    forall|i: int, j: int| 0 <= i < j < s.len() ==> id_of(s[i]) != id_of(s[j])
}

/// The fields that the caller hands in; aggregates are derived.
pub open spec fn same_own(a: TxEntry, b: TxEntry) -> bool {
    a.tx == b.tx && a.cycles == b.cycles && a.fee == b.fee && a.size == b.size && a.timestamp
        == b.timestamp
}

/// Whether `c` spends an output of `p`.
pub open spec fn spends(c: TxEntry, p: TxEntry) -> bool {
    exists|k: int| 0 <= k < c.tx.inputs@.len() && c.tx.inputs@[k].tx_hash == p.tx.hash
}

/// A chain of in-pool spends: each element is an entry, and each element
/// spends an output of the next one.
pub open spec fn is_parent_chain(s: Seq<TxEntry>, c: Seq<ProposalShortId>) -> bool {
    &&& c.len() >= 2
    &&& (forall|i: int| 0 <= i < c.len() ==> has_id(s, #[trigger] c[i]))
    &&& (forall|i: int|
        0 <= i < c.len() - 1 ==> spends(entry_of(s, #[trigger] c[i]), entry_of(s, c[i + 1])))
}

/// Whether a chain of spends leads from the entry `from` up to the entry
/// `to`: `to` is a transitive parent (ancestor) of `from`.
pub open spec fn reaches_up(s: Seq<TxEntry>, from: ProposalShortId, to: ProposalShortId) -> bool {
    exists|c: Seq<ProposalShortId>| is_parent_chain(s, c) && c[0] == from && c.last() == to
}

/// Sum of `f` over the first `n` entries of `s` that satisfy `pred`.
pub open spec fn sum_filtered(
    s: Seq<TxEntry>,
    pred: spec_fn(TxEntry) -> bool,
    f: spec_fn(TxEntry) -> int,
    n: int,
) -> int
    decreases n,
{
    if n <= 0 {
        0
    } else {
        sum_filtered(s, pred, f, n - 1) + if pred(s[n - 1]) {
            f(s[n - 1])
        } else {
            0
        }
    }
}

/// The predicate "is a strict transitive parent of the entry with id `id`".
pub open spec fn anc_pred(s: Seq<TxEntry>, id: ProposalShortId) -> spec_fn(TxEntry) -> bool {
    |x: TxEntry| id_of(x) != id && reaches_up(s, id, id_of(x))
}

/// The predicate "is a strict transitive descendant of the entry with id
/// `id`".
pub open spec fn desc_pred(s: Seq<TxEntry>, id: ProposalShortId) -> spec_fn(TxEntry) -> bool {
    |x: TxEntry| id_of(x) != id && reaches_up(s, id_of(x), id)
}

/// `e` with its aggregates recomputed against the entries `s`: each
/// aggregate is the entry's own value plus the sum over its unique
/// transitive ancestors (descendants respectively), counting the entry
/// itself once.
pub open spec fn with_aggregates(s: Seq<TxEntry>, e: TxEntry) -> TxEntry {
    let n = s.len() as int;
    let ap = anc_pred(s, id_of(e));
    let dp = desc_pred(s, id_of(e));
    TxEntry {
        ancestors_count: (1 + sum_filtered(s, ap, |x: TxEntry| 1int, n)) as u64,
        ancestors_size: (e.size + sum_filtered(s, ap, |x: TxEntry| x.size as int, n)) as u64,
        ancestors_fee: (e.fee + sum_filtered(s, ap, |x: TxEntry| x.fee as int, n)) as u64,
        ancestors_cycles: (e.cycles + sum_filtered(s, ap, |x: TxEntry| x.cycles as int, n)) as u64,
        descendants_count: (1 + sum_filtered(s, dp, |x: TxEntry| 1int, n)) as u64,
        descendants_size: (e.size + sum_filtered(s, dp, |x: TxEntry| x.size as int, n)) as u64,
        descendants_fee: (e.fee + sum_filtered(s, dp, |x: TxEntry| x.fee as int, n)) as u64,
        descendants_cycles: (e.cycles + sum_filtered(s, dp, |x: TxEntry| x.cycles as int, n))
            as u64,
        ..e
    }
}

/// The entries with every aggregate recomputed.
pub open spec fn refreshed(s: Seq<TxEntry>) -> Seq<TxEntry> {
    s.map(|i: int, e: TxEntry| with_aggregates(s, e))
}

/// Total own size of the pool, and friends: used to bound every aggregate.
pub open spec fn total_size(s: Seq<TxEntry>) -> int {
    sum_filtered(s, |x: TxEntry| true, |x: TxEntry| x.size as int, s.len() as int)
}

pub open spec fn total_fee(s: Seq<TxEntry>) -> int {
    sum_filtered(s, |x: TxEntry| true, |x: TxEntry| x.fee as int, s.len() as int)
}

pub open spec fn total_cycles(s: Seq<TxEntry>) -> int {
    sum_filtered(s, |x: TxEntry| true, |x: TxEntry| x.cycles as int, s.len() as int)
}

/// All aggregate sums fit in their 64-bit fields.
pub open spec fn sums_fit(s: Seq<TxEntry>) -> bool {
    &&& s.len() + 1 <= u64::MAX
    &&& total_size(s) + u64::MAX <= u64::MAX as int + u64::MAX as int
    &&& total_size(s) <= u64::MAX
    &&& total_fee(s) <= u64::MAX
    &&& total_cycles(s) <= u64::MAX
}

/// If `s[j]` has id `id` and ids are unique, the lookup finds `s[j]`.
pub proof fn lemma_entry_of(s: Seq<TxEntry>, j: int)
    requires
        unique_ids(s),
        0 <= j < s.len(),
    ensures
        idx_of(s, id_of(s[j])) == j,
        entry_of(s, id_of(s[j])) == s[j],
{
    let id = id_of(s[j]);
    let i = choose|i: int| 0 <= i < s.len() && id_of(s[i]) == id;
    assert(0 <= i < s.len() && id_of(s[i]) == id);
}

/// A sum over a filter is at least zero and at most the unfiltered sum.
pub proof fn lemma_sum_bounds(
    s: Seq<TxEntry>,
    pred: spec_fn(TxEntry) -> bool,
    f: spec_fn(TxEntry) -> int,
    n: int,
)
    requires
        n <= s.len(),
        forall|x: TxEntry| #[trigger] f(x) >= 0,
    ensures
        0 <= sum_filtered(s, pred, f, n),
        sum_filtered(s, pred, f, n) <= sum_filtered(s, |x: TxEntry| true, f, n),
    decreases n,
{
    if n > 0 {
        lemma_sum_bounds(s, pred, f, n - 1);
    }
}

/// Sums agree across two sequences whose entries agree pointwise under the
/// predicates and measures.
pub proof fn lemma_sum_congruence(
    s1: Seq<TxEntry>,
    s2: Seq<TxEntry>,
    p1: spec_fn(TxEntry) -> bool,
    p2: spec_fn(TxEntry) -> bool,
    f1: spec_fn(TxEntry) -> int,
    f2: spec_fn(TxEntry) -> int,
    n: int,
)
    requires
        n <= s1.len(),
        n <= s2.len(),
        forall|i: int| 0 <= i < n ==> p1(#[trigger] s1[i]) == p2(s2[i]),
        forall|i: int| 0 <= i < n ==> f1(#[trigger] s1[i]) == f2(s2[i]),
    ensures
        sum_filtered(s1, p1, f1, n) == sum_filtered(s2, p2, f2, n),
    decreases n,
{
    if n > 0 {
        lemma_sum_congruence(s1, s2, p1, p2, f1, f2, n - 1);
    }
}

/// One more chain link: if `to` is reachable from `from` and the entry at
/// `to`... rather, if `v` is an ancestor of `from` and `v`'s entry spends
/// `p`'s entry, then `p` is an ancestor of `from` too.
pub proof fn lemma_reach_step(
    s: Seq<TxEntry>,
    from: ProposalShortId,
    v: ProposalShortId,
    p: ProposalShortId,
)
    requires
        reaches_up(s, from, v),
        has_id(s, p),
        spends(entry_of(s, v), entry_of(s, p)),
    ensures
        reaches_up(s, from, p),
{
    let c = choose|c: Seq<ProposalShortId>| is_parent_chain(s, c) && c[0] == from && c.last() == v;
    let longer = c.push(p);
    assert forall|i: int| 0 <= i < longer.len() implies has_id(s, #[trigger] longer[i]) by {
        if i < c.len() {
            assert(longer[i] == c[i]);
        }
    }
    assert forall|i: int| 0 <= i < longer.len() - 1 implies spends(
        entry_of(s, #[trigger] longer[i]),
        entry_of(s, longer[i + 1]),
    ) by {
        if i < c.len() - 1 {
            assert(longer[i] == c[i] && longer[i + 1] == c[i + 1]);
        } else {
            assert(longer[i] == c.last() && longer[i + 1] == p);
        }
    }
    assert(is_parent_chain(s, longer));
    assert(longer[0] == from && longer.last() == p);
}

/// The two-element chain: a direct spend makes an ancestor.
pub proof fn lemma_reach_base(s: Seq<TxEntry>, from: ProposalShortId, p: ProposalShortId)
    requires
        has_id(s, from),
        has_id(s, p),
        spends(entry_of(s, from), entry_of(s, p)),
    ensures
        reaches_up(s, from, p),
{
    let c: Seq<ProposalShortId> = seq![from, p];
    assert(c.last() == p);
    assert(is_parent_chain(s, c));
}

/// Distinct ids that all name entries cannot outnumber the entries.
pub proof fn lemma_distinct_ids_len(ids: Seq<ProposalShortId>, s: Seq<TxEntry>)
    requires
        unique_ids(s),
        forall|a: int, b: int| 0 <= a < b < ids.len() ==> ids[a] != ids[b],
        forall|k: int| 0 <= k < ids.len() ==> has_id(s, #[trigger] ids[k]),
    ensures
        ids.len() <= s.len(),
    decreases ids.len(),
{
    if ids.len() > 0 {
        let last = ids[ids.len() - 1];
        let j = choose|j: int| 0 <= j < s.len() && id_of(s[j]) == last;
        let ids2 = ids.drop_last();
        let s2 = s.remove(j);
        assert(unique_ids(s2)) by {
            assert forall|a: int, b: int| 0 <= a < b < s2.len() implies id_of(s2[a]) != id_of(
                s2[b],
            ) by {
                let a2: int = if a < j {
                    a
                } else {
                    a + 1
                };
                let b2: int = if b < j {
                    b
                } else {
                    b + 1
                };
                assert(s2[a] == s[a2] && s2[b] == s[b2]);
            }
        }
        assert forall|k: int| 0 <= k < ids2.len() implies has_id(s2, #[trigger] ids2[k]) by {
            assert(ids2[k] == ids[k]);
            assert(ids[k] != last);
            let w = choose|w: int| 0 <= w < s.len() && id_of(s[w]) == ids[k];
            assert(w != j);
            if w < j {
                assert(s2[w] == s[w]);
            } else {
                assert(s2[w - 1] == s[w]);
            }
        }
        lemma_distinct_ids_len(ids2, s2);
    }
}

/// Every element of a spend chain starting at a visited id ends up visited,
/// once the visited set is closed under taking direct parents.
proof fn lemma_chain_visited(
    s: Seq<TxEntry>,
    c: Seq<ProposalShortId>,
    visited: Seq<ProposalShortId>,
    k: int,
)
    requires
        unique_ids(s),
        is_parent_chain(s, c),
        visited.contains(c[0]),
        forall|v: ProposalShortId, j: int|
            #![trigger spends(entry_of(s, v), s[j])]
            visited.contains(v) && 0 <= j < s.len() && has_id(s, v) && spends(
                entry_of(s, v),
                s[j],
            ) ==> visited.contains(id_of(s[j])),
        0 <= k < c.len(),
    ensures
        visited.contains(c[k]),
    decreases k,
{
    if k > 0 {
        lemma_chain_visited(s, c, visited, k - 1);
        assert(spends(entry_of(s, c[k - 1]), entry_of(s, c[k])));
        let j = choose|j: int| 0 <= j < s.len() && id_of(s[j]) == c[k];
        lemma_entry_of(s, j);
        assert(spends(entry_of(s, c[k - 1]), s[j]));
        assert(visited.contains(id_of(s[j])));
    }
}

/// Reachability only reads the own fields: it is the same over two
/// sequences whose entries agree ownwise.
pub proof fn lemma_reaches_congruence(
    s1: Seq<TxEntry>,
    s2: Seq<TxEntry>,
    from: ProposalShortId,
    to: ProposalShortId,
)
    requires
        s1.len() == s2.len(),
        forall|i: int| 0 <= i < s1.len() ==> same_own(#[trigger] s1[i], s2[i]),
        unique_ids(s1),
        reaches_up(s1, from, to),
    ensures
        reaches_up(s2, from, to),
{
    assert(unique_ids(s2)) by {
        assert forall|i: int, j: int| 0 <= i < j < s2.len() implies id_of(s2[i]) != id_of(
            s2[j],
        ) by {
            assert(same_own(s1[i], s2[i]) && same_own(s1[j], s2[j]));
            assert(id_of(s1[i]) != id_of(s1[j]));
        }
    }
    let c = choose|c: Seq<ProposalShortId>| is_parent_chain(s1, c) && c[0] == from && c.last() == to;
    assert forall|i: int| 0 <= i < c.len() implies has_id(s2, #[trigger] c[i]) by {
        let j = choose|j: int| 0 <= j < s1.len() && id_of(s1[j]) == c[i];
        assert(id_of(s2[j]) == c[i]);
    }
    assert forall|i: int| 0 <= i < c.len() - 1 implies spends(
        entry_of(s2, #[trigger] c[i]),
        entry_of(s2, c[i + 1]),
    ) by {
        let j1 = choose|j: int| 0 <= j < s1.len() && id_of(s1[j]) == c[i];
        let j2 = choose|j: int| 0 <= j < s1.len() && id_of(s1[j]) == c[i + 1];
        lemma_entry_of(s1, j1);
        lemma_entry_of(s1, j2);
        assert(id_of(s2[j1]) == c[i] && id_of(s2[j2]) == c[i + 1]);
        lemma_entry_of(s2, j1);
        lemma_entry_of(s2, j2);
        assert(spends(s1[j1], s1[j2]));
        let k = choose|k: int|
            0 <= k < s1[j1].tx.inputs@.len() && s1[j1].tx.inputs@[k].tx_hash == s1[j2].tx.hash;
        assert(s2[j1].tx.inputs@[k].tx_hash == s2[j2].tx.hash);
    }
    assert(is_parent_chain(s2, c));
}

impl TxEntry {
    /// An entry with the given own values; aggregates start at the entry's
    /// own weight (itself, counted once).
    pub fn dummy_resolve(tx: Transaction, cycles: u64, fee: u64, size: u64) -> (r: TxEntry)
        ensures
            r.tx == tx,
            r.cycles == cycles && r.fee == fee && r.size == size && r.timestamp == 0,
    {
        TxEntry {
            tx,
            cycles,
            fee,
            size,
            timestamp: 0,
            ancestors_count: 1,
            ancestors_size: size,
            ancestors_fee: fee,
            ancestors_cycles: cycles,
            descendants_count: 1,
            descendants_size: size,
            descendants_fee: fee,
            descendants_cycles: cycles,
        }
    }

    /// The short id under which the pool stores this entry.
    pub fn proposal_short_id(&self) -> (r: ProposalShortId)
        ensures
            r == id_of(*self),
    {
        ProposalShortId::from_tx_hash(&self.tx.hash)
    }

    /// The transaction itself.
    pub fn transaction(&self) -> (r: &Transaction)
        ensures
            r == self.tx,
    {
        &self.tx
    }

    /// The fee-rate sort key of this entry: weight is the entry's size, the
    /// ancestor weight its aggregated ancestor size.
    pub fn as_score_key(&self) -> (r: AncestorsScoreSortKey)
        ensures
            r == (AncestorsScoreSortKey {
                fee: self.fee,
                weight: self.size,
                ancestors_fee: self.ancestors_fee,
                ancestors_weight: self.ancestors_size,
            }),
    {
        AncestorsScoreSortKey {
            fee: self.fee,
            weight: self.size,
            ancestors_fee: self.ancestors_fee,
            ancestors_weight: self.ancestors_size,
        }
    }
}

/// Whether `c` spends an output of `p`.
fn spends_exec(c: &TxEntry, p: &TxEntry) -> (r: bool)
    ensures
        r == spends(*c, *p),
{
    let mut k: usize = 0;
    while k < c.tx.inputs.len()
        invariant
            0 <= k <= c.tx.inputs@.len(),
            forall|a: int| 0 <= a < k ==> c.tx.inputs@[a].tx_hash != p.tx.hash,
        decreases c.tx.inputs@.len() - k,
    {
        if c.tx.inputs[k].tx_hash == p.tx.hash {
            return true;
        }
        k += 1;
    }
    false
}

/// Whether `v` holds `id`.
fn ids_contains(v: &Vec<ProposalShortId>, id: &ProposalShortId) -> (r: bool)
    ensures
        r == v@.contains(*id),
{
    let mut k: usize = 0;
    while k < v.len()
        invariant
            0 <= k <= v@.len(),
            forall|a: int| 0 <= a < k ==> v@[a] != id,
        decreases v@.len() - k,
    {
        if v[k] == *id {
            return true;
        }
        k += 1;
    }
    proof {
        assert(!v@.contains(*id));
    }
    false
}

/// The primary store of pending transactions with their dependency graph.
pub struct PoolMap {
    entries: Vec<TxEntry>,
    max_ancestors_count: usize,
}

impl PoolMap {
    /// The stored entries, for specifications.
    pub closed spec fn entries_view(self) -> Seq<TxEntry> {
        self.entries@
    }

    /// The admission bound on `ancestors_count`.
    pub closed spec fn max_ancestors_view(self) -> int {
        self.max_ancestors_count as int
    }

    /// Well-formed: ids unique, sums in range, and every stored aggregate
    /// equal to its recomputation from the dependency graph.
    pub open spec fn wf(self) -> bool {
        pool_wf(self.entries_view())
    }

    /// An empty pool with the given ancestor bound.
    pub fn new(max_ancestors_count: usize) -> (r: PoolMap)
        ensures
            r.wf(),
            r.entries_view() == Seq::<TxEntry>::empty(),
            r.max_ancestors_view() == max_ancestors_count as int,
    {
        let r = PoolMap { entries: Vec::new(), max_ancestors_count };
        proof {
            assert(r.entries_view() =~= Seq::<TxEntry>::empty());
        }
        r
    }

    /// Number of entries in the pool.
    pub fn len(&self) -> (r: usize)
        ensures
            r == self.entries_view().len(),
    {
        self.entries.len()
    }

    fn find_index(&self, id: &ProposalShortId) -> (r: Option<usize>)
        ensures
            match r {
                Some(i) => 0 <= i < self.entries_view().len() && id_of(
                    self.entries_view()[i as int],
                ) == id,
                None => !has_id(self.entries_view(), *id),
            },
    {
        let mut i: usize = 0;
        while i < self.entries.len()
            invariant
                0 <= i <= self.entries@.len(),
                forall|j: int| 0 <= j < i ==> id_of(self.entries@[j]) != id,
            decreases self.entries@.len() - i,
        {
            if self.entries[i].proposal_short_id() == *id {
                return Some(i);
            }
            i += 1;
        }
        None
    }

    /// Whether the pool holds an entry under `id`.
    pub fn contains_key(&self, id: &ProposalShortId) -> (r: bool)
        ensures
            r == has_id(self.entries_view(), *id),
    {
        self.find_index(id).is_some()
    }

    /// The entry stored under `id`, if any.
    pub fn get(&self, id: &ProposalShortId) -> (r: Option<&TxEntry>)
        requires
            self.wf(),
        ensures
            match r {
                Some(e) => has_id(self.entries_view(), *id) && *e == entry_of(
                    self.entries_view(),
                    *id,
                ),
                None => !has_id(self.entries_view(), *id),
            },
    {
        match self.find_index(id) {
            Some(i) => {
                proof {
                    lemma_entry_of(self.entries@, i as int);
                }
                Some(&self.entries[i])
            }
            None => None,
        }
    }

    /// The entry at position `i` in insertion order, if any.
    pub fn get_at(&self, i: usize) -> (r: Option<&TxEntry>)
        ensures
            match r {
                Some(e) => i < self.entries_view().len() && *e == self.entries_view()[i as int],
                None => i >= self.entries_view().len(),
            },
    {
        if i < self.entries.len() {
            Some(&self.entries[i])
        } else {
            None
        }
    }

    /// The eviction candidate: an entry below which nothing sorts. The
    /// cross-multiplied order has no strictly smaller element under any
    /// entry whose key ties cyclically (possible only with zero weights);
    /// then the oldest entry stands in.
    pub fn min_score_candidate(&self) -> (r: Option<ProposalShortId>)
        requires
            self.wf(),
        ensures
            match r {
                Some(id) => has_id(self.entries_view(), id) && (entry_minimal(
                    self.entries_view(),
                    entry_of(self.entries_view(), id),
                ) || !(exists|i: int|
                    0 <= i < self.entries_view().len() && entry_minimal(
                        self.entries_view(),
                        #[trigger] self.entries_view()[i],
                    ))),
                None => self.entries_view().len() == 0,
            },
    {
        let ghost s = self.entries@;
        let n = self.entries.len();
        if n == 0 {
            return None;
        }
        let mut i: usize = 0;
        while i < n
            invariant
                self.wf(),
                s == self.entries@,
                n == s.len(),
                0 <= i <= n,
                forall|ii: int| 0 <= ii < i ==> !entry_minimal(s, #[trigger] s[ii]),
            decreases n - i,
        {
            let candidate_key = self.entries[i].as_score_key();
            let mut j: usize = 0;
            let mut beaten = false;
            while j < n
                invariant
                    self.wf(),
                    s == self.entries@,
                    n == s.len(),
                    0 <= (i as int) < n,
                    0 <= j <= n,
                    candidate_key == score_key_of(s[i as int]),
                    beaten ==> exists|jj: int|
                        0 <= jj < n && crate::sort_key::key_lt(
                            score_key_of(#[trigger] s[jj]),
                            score_key_of(s[i as int]),
                        ),
                    !beaten ==> forall|jj: int|
                        0 <= jj < j ==> !crate::sort_key::key_lt(
                            score_key_of(#[trigger] s[jj]),
                            score_key_of(s[i as int]),
                        ),
                decreases n - j,
            {
                let other_key = self.entries[j].as_score_key();
                if crate::sort_key::key_lt_exec(&other_key, &candidate_key) {
                    proof {
                        assert(crate::sort_key::key_lt(
                            score_key_of(s[j as int]),
                            score_key_of(s[i as int]),
                        ));
                    }
                    beaten = true;
                }
                j += 1;
            }
            if !beaten {
                proof {
                    lemma_entry_of(s, i as int);
                }
                return Some(self.entries[i].proposal_short_id());
            }
            i += 1;
        }
        proof {
            lemma_entry_of(s, 0);
            assert forall|ii: int| 0 <= ii < s.len() implies !entry_minimal(
                s,
                #[trigger] s[ii],
            ) by {}
        }
        Some(self.entries[0].proposal_short_id())
    }

    /// The ids of all transitive ancestors of `id`: every entry that a chain
    /// of in-pool spends reaches from `id`, and nothing else.
    pub fn calc_ancestors(&self, id: &ProposalShortId) -> (r: Vec<ProposalShortId>)
        requires
            unique_ids(self.entries_view()),
        ensures
            forall|k: int|
                0 <= k < r@.len() ==> reaches_up(self.entries_view(), *id, #[trigger] r@[k])
                    && r@[k] != id,
            forall|a: ProposalShortId|
                reaches_up(self.entries_view(), *id, a) && a != id ==> r@.contains(a),
            forall|a: int, b: int| 0 <= a < b < r@.len() ==> r@[a] != r@[b],
    {
        let ghost s = self.entries@;
        let mut visited: Vec<ProposalShortId> = Vec::new();
        visited.push(*id);
        let mut p: usize = 0;
        proof {
            assert(visited@[0] == *id);
            assert(visited@.contains(*id));
        }
        while p < visited.len()
            invariant
                unique_ids(s),
                s == self.entries@,
                0 <= p <= visited@.len(),
                visited@[0] == *id,
                visited@.len() >= 1,
                forall|a: int, b: int| 0 <= a < b < visited@.len() ==> visited@[a] != visited@[b],
                forall|k: int|
                    0 <= k < visited@.len() ==> (#[trigger] visited@[k] == *id || reaches_up(
                        s,
                        *id,
                        visited@[k],
                    )),
                forall|k: int| 0 <= k < visited@.len() ==> visited@[k] == *id || has_id(s, #[trigger] visited@[k]),
                // processed prefix is closed under direct parents
                forall|k: int, j: int|
                    0 <= k < p && 0 <= j < s.len() && has_id(s, visited@[k]) && spends(
                        entry_of(s, #[trigger] visited@[k]),
                        #[trigger] s[j],
                    ) ==> visited@.contains(id_of(s[j])),
                visited@.len() <= s.len() + 1,
            decreases 2 * (s.len() + 1) - visited@.len() - p,
        {
            let v = visited[p];
            let ghost vlen0 = visited@.len();
            let vi = self.find_index(&v);
            match vi {
                Some(vidx) => {
                    proof {
                        lemma_entry_of(s, vidx as int);
                    }
                    let mut j: usize = 0;
                    while j < self.entries.len()
                        invariant
                            visited@.len() >= vlen0,
                            unique_ids(s),
                            s == self.entries@,
                            0 <= j <= s.len(),
                            0 <= p < visited@.len(),
                            visited@[p as int] == v,
                            visited@[0] == *id,
                            0 <= (vidx as int) < s.len(),
                            id_of(s[vidx as int]) == v,
                            entry_of(s, v) == s[vidx as int],
                            forall|a: int, b: int|
                                0 <= a < b < visited@.len() ==> visited@[a] != visited@[b],
                            forall|k: int|
                                0 <= k < visited@.len() ==> (#[trigger] visited@[k] == *id
                                    || reaches_up(s, *id, visited@[k])),
                            forall|k: int|
                                0 <= k < visited@.len() ==> visited@[k] == *id || has_id(
                                    s,
                                    #[trigger] visited@[k],
                                ),
                            forall|k: int, jj: int|
                                0 <= k < p && 0 <= jj < s.len() && has_id(s, visited@[k]) && spends(
                                    entry_of(s, #[trigger] visited@[k]),
                                    #[trigger] s[jj],
                                ) ==> visited@.contains(id_of(s[jj])),
                            // the scanned part of the current row is covered
                            forall|jj: int|
                                0 <= jj < j && spends(entry_of(s, v), #[trigger] s[jj])
                                    ==> visited@.contains(id_of(s[jj])),
                            visited@.len() <= s.len() + 1,
                        decreases s.len() - j,
                    {
                        if spends_exec(&self.entries[vidx], &self.entries[j]) {
                            let pid = self.entries[j].proposal_short_id();
                            if !ids_contains(&visited, &pid) {
                                let ghost vpre = visited@;
                                visited.push(pid);
                                proof {
                                    assert(id_of(s[j as int]) == pid);
                                    lemma_entry_of(s, j as int);
                                    assert(has_id(s, pid));
                                    if v == *id {
                                        lemma_reach_base(s, *id, pid);
                                    } else {
                                        assert(reaches_up(s, *id, v));
                                        lemma_reach_step(s, *id, v, pid);
                                    }
                                    assert(reaches_up(s, *id, pid));
                                    // distinctness and the pigeonhole bound
                                    assert forall|a: int, b: int|
                                        0 <= a < b < visited@.len() implies visited@[a]
                                        != visited@[b] by {
                                        if b == visited@.len() - 1 {
                                            assert(visited@[a] == vpre[a]);
                                            if vpre[a] == pid {
                                                assert(vpre.contains(pid));
                                            }
                                        } else {
                                            assert(visited@[a] == vpre[a] && visited@[b]
                                                == vpre[b]);
                                        }
                                    }
                                    assert(visited@.len() <= s.len() + 1) by {
                                        let rest = visited@.drop_first();
                                        assert forall|k: int|
                                            0 <= k < rest.len() implies has_id(
                                            s,
                                            #[trigger] rest[k],
                                        ) by {
                                            assert(rest[k] == visited@[k + 1]);
                                            assert(visited@[k + 1] != visited@[0]);
                                        }
                                        assert forall|a: int, b: int|
                                            0 <= a < b < rest.len() implies rest[a] != rest[b] by {
                                            assert(rest[a] == visited@[a + 1] && rest[b]
                                                == visited@[b + 1]);
                                        }
                                        lemma_distinct_ids_len(rest, s);
                                    }
                                    assert forall|k: int|
                                        0 <= k < visited@.len() implies (#[trigger] visited@[k]
                                        == *id || reaches_up(s, *id, visited@[k])) by {
                                        if k < vpre.len() {
                                            assert(visited@[k] == vpre[k]);
                                        }
                                    }
                                    assert forall|k: int, jj: int|
                                        0 <= k < p && 0 <= jj < s.len() && has_id(s, visited@[k])
                                            && spends(
                                            entry_of(s, #[trigger] visited@[k]),
                                            #[trigger] s[jj],
                                        ) implies visited@.contains(id_of(s[jj])) by {
                                        assert(visited@[k] == vpre[k]);
                                        assert(vpre.contains(id_of(s[jj])));
                                        let w = choose|w: int|
                                            0 <= w < vpre.len() && vpre[w] == id_of(s[jj]);
                                        assert(visited@[w] == id_of(s[jj]));
                                    }
                                    assert forall|jj: int|
                                        0 <= jj <= j && spends(
                                            entry_of(s, v),
                                            #[trigger] s[jj],
                                        ) implies visited@.contains(id_of(s[jj])) by {
                                        if jj < j {
                                            assert(vpre.contains(id_of(s[jj])));
                                            let w = choose|w: int|
                                                0 <= w < vpre.len() && vpre[w] == id_of(s[jj]);
                                            assert(visited@[w] == id_of(s[jj]));
                                        } else {
                                            assert(visited@[visited@.len() - 1] == pid);
                                        }
                                    }
                                    assert(visited@[p as int] == v);
                                    assert(visited@[0] == *id);
                                }
                            } else {
                                proof {
                                    lemma_entry_of(s, j as int);
                                }
                            }
                        }
                        j += 1;
                    }
                }
                None => {
                    // the root id itself may be absent; entries always exist
                    proof {
                        assert(v == *id || has_id(s, v));
                    }
                }
            }
            p += 1;
            proof {
                // the row just finished is now covered for the closure
                assert forall|k: int, jj: int|
                    0 <= k < p && 0 <= jj < s.len() && has_id(s, visited@[k]) && spends(
                        entry_of(s, #[trigger] visited@[k]),
                        #[trigger] s[jj],
                    ) implies visited@.contains(id_of(s[jj])) by {}
            }
        }
        // drop the root itself from the answer
        let mut result: Vec<ProposalShortId> = Vec::new();
        let mut k: usize = 1;
        while k < visited.len()
            invariant
                1 <= k <= visited@.len(),
                visited@.len() >= 1,
                result@ == visited@.subrange(1, k as int),
            decreases visited@.len() - k,
        {
            result.push(visited[k]);
            k += 1;
            proof {
                assert(result@ =~= visited@.subrange(1, k as int));
            }
        }
        proof {
            assert(result@ =~= visited@.subrange(1, visited@.len() as int));
            let ghost vis = visited@;
            assert forall|a: ProposalShortId|
                reaches_up(self.entries@, *id, a) && a != *id implies result@.contains(a) by {
                let c = choose|c: Seq<ProposalShortId>|
                    is_parent_chain(s, c) && c[0] == *id && c.last() == a;
                assert(vis.contains(*id)) by {
                    assert(vis[0] == *id);
                }
                assert forall|v2: ProposalShortId, j: int|
                    #![trigger spends(entry_of(s, v2), s[j])]
                    vis.contains(v2) && 0 <= j < s.len() && has_id(s, v2) && spends(
                        entry_of(s, v2),
                        s[j],
                    ) implies vis.contains(id_of(s[j])) by {
                    let k2 = choose|k2: int| 0 <= k2 < vis.len() && vis[k2] == v2;
                }
                lemma_chain_visited(s, c, vis, c.len() - 1);
                let w = choose|w: int| 0 <= w < vis.len() && vis[w] == a;
                assert(w != 0);
                assert(result@[w - 1] == a);
            }
            assert forall|k: int| 0 <= k < result@.len() implies reaches_up(
                self.entries@,
                *id,
                #[trigger] result@[k],
            ) && result@[k] != id by {
                assert(result@[k] == vis[k + 1]);
                assert(vis[k + 1] != vis[0]);
            }
        }
        result
    }
}

/// The fee-rate sort key an entry is scheduled by.
pub open spec fn score_key_of(e: TxEntry) -> AncestorsScoreSortKey {
    AncestorsScoreSortKey {
        fee: e.fee,
        weight: e.size,
        ancestors_fee: e.ancestors_fee,
        ancestors_weight: e.ancestors_size,
    }
}

/// No entry of `s` sorts strictly below `e`.
pub open spec fn entry_minimal(s: Seq<TxEntry>, e: TxEntry) -> bool {
    forall|j: int|
        0 <= j < s.len() ==> !crate::sort_key::key_lt(score_key_of(#[trigger] s[j]), score_key_of(e))
}

/// Recomputed aggregates for one entry, carried between passes.
#[derive(Clone, Copy)]
struct AggRow {
    ac: u64,
    asz: u64,
    af: u64,
    acy: u64,
    dc: u64,
    dsz: u64,
    df: u64,
    dcy: u64,
}

/// Whether `row` holds exactly the recomputed aggregates of `e` against `s`.
spec fn row_matches(s: Seq<TxEntry>, e: TxEntry, row: AggRow) -> bool {
    &&& row.ac == with_aggregates(s, e).ancestors_count
    &&& row.asz == with_aggregates(s, e).ancestors_size
    &&& row.af == with_aggregates(s, e).ancestors_fee
    &&& row.acy == with_aggregates(s, e).ancestors_cycles
    &&& row.dc == with_aggregates(s, e).descendants_count
    &&& row.dsz == with_aggregates(s, e).descendants_size
    &&& row.df == with_aggregates(s, e).descendants_fee
    &&& row.dcy == with_aggregates(s, e).descendants_cycles
}

impl PoolMap {
    /// The ids of all strict transitive descendants of `id`: the entries a
    /// chain of in-pool spends leads up from to `id`.
    pub fn calc_descendants(&self, id: &ProposalShortId) -> (r: Vec<ProposalShortId>)
        requires
            unique_ids(self.entries_view()),
        ensures
            forall|k: int|
                0 <= k < r@.len() ==> reaches_up(self.entries_view(), #[trigger] r@[k], *id)
                    && r@[k] != id,
            forall|d: ProposalShortId|
                reaches_up(self.entries_view(), d, *id) && d != id ==> r@.contains(d),
            forall|a: int, b: int| 0 <= a < b < r@.len() ==> r@[a] != r@[b],
    {
        let ghost s = self.entries@;
        let mut result: Vec<ProposalShortId> = Vec::new();
        let mut j: usize = 0;
        while j < self.entries.len()
            invariant
                unique_ids(s),
                s == self.entries@,
                0 <= j <= s.len(),
                forall|k: int|
                    0 <= k < result@.len() ==> reaches_up(s, #[trigger] result@[k], *id)
                        && result@[k] != id,
                forall|jj: int|
                    0 <= jj < j && id_of(s[jj]) != id && reaches_up(s, id_of(#[trigger] s[jj]), *id)
                        ==> result@.contains(id_of(s[jj])),
                forall|a: int, b: int| 0 <= a < b < result@.len() ==> result@[a] != result@[b],
                forall|k: int|
                    #![trigger result@[k]]
                    0 <= k < result@.len() ==> exists|jj: int|
                        0 <= jj < j && #[trigger] id_of(s[jj]) == result@[k],
            decreases s.len() - j,
        {
            let dj = self.entries[j].proposal_short_id();
            if !(dj == *id) {
                let ancs = self.calc_ancestors(&dj);
                if ids_contains(&ancs, id) {
                    let ghost rpre = result@;
                    result.push(dj);
                    proof {
                        assert(reaches_up(s, dj, *id));
                        assert forall|a: int, b: int|
                            0 <= a < b < result@.len() implies result@[a] != result@[b] by {
                            if b == result@.len() - 1 {
                                assert(result@[a] == rpre[a]);
                                let w = choose|jj: int| 0 <= jj < j && id_of(s[jj]) == rpre[a];
                                assert(id_of(s[w]) != id_of(s[j as int]));
                            } else {
                                assert(result@[a] == rpre[a] && result@[b] == rpre[b]);
                            }
                        }
                        assert forall|k: int|
                            #![trigger result@[k]]
                            0 <= k < result@.len() implies exists|jj: int|
                                0 <= jj <= j && #[trigger] id_of(s[jj]) == result@[k] by {
                            if k < rpre.len() {
                                let w = choose|jj: int| 0 <= jj < j && id_of(s[jj]) == rpre[k];
                                assert(id_of(s[w]) == result@[k]);
                            } else {
                                assert(id_of(s[j as int]) == result@[k]);
                            }
                        }
                        assert forall|jj: int|
                            0 <= jj <= j && id_of(s[jj]) != id && reaches_up(
                                s,
                                id_of(#[trigger] s[jj]),
                                *id,
                            ) implies result@.contains(id_of(s[jj])) by {
                            if jj < j {
                                assert(rpre.contains(id_of(s[jj])));
                                let w = choose|w: int| 0 <= w < rpre.len() && rpre[w] == id_of(s[jj]);
                                assert(result@[w] == id_of(s[jj]));
                            } else {
                                assert(result@[result@.len() - 1] == dj);
                            }
                        }
                    }
                }
            }
            j += 1;
        }
        proof {
            assert forall|d: ProposalShortId|
                reaches_up(s, d, *id) && d != id implies result@.contains(d) by {
                let c = choose|c: Seq<ProposalShortId>|
                    is_parent_chain(s, c) && c[0] == d && c.last() == *id;
                assert(has_id(s, c[0]));
                let w = choose|w: int| 0 <= w < s.len() && id_of(s[w]) == d;
            }
        }
        result
    }

    fn compute_row(&self, i: usize) -> (row: AggRow)
        requires
            unique_ids(self.entries_view()),
            sums_fit(self.entries_view()),
            i < self.entries_view().len(),
        ensures
            row_matches(self.entries_view(), self.entries_view()[i as int], row),
    {
        let ghost s = self.entries@;
        let ghost n = s.len() as int;
        let e_id = self.entries[i].proposal_short_id();
        proof {
            lemma_entry_of(s, i as int);
        }
        let ancs = self.calc_ancestors(&e_id);
        let descs = self.calc_descendants(&e_id);
        let ghost ap = anc_pred(s, e_id);
        let ghost dp = desc_pred(s, e_id);
        let mut ac: u64 = 0;
        let mut asz: u64 = 0;
        let mut af: u64 = 0;
        let mut acy: u64 = 0;
        let mut dc: u64 = 0;
        let mut dsz: u64 = 0;
        let mut df: u64 = 0;
        let mut dcy: u64 = 0;
        let mut j: usize = 0;
        proof {
            lemma_sum_const(s, n);
            lemma_sum_bounds(s, |x: TxEntry| true, |x: TxEntry| x.size as int, n);
        }
        while j < self.entries.len()
            invariant
                unique_ids(s),
                sums_fit(s),
                s == self.entries@,
                0 <= j <= s.len(),
                n == s.len() as int,
                0 <= (i as int) < s.len(),
                e_id == id_of(s[i as int]),
                ap == anc_pred(s, e_id),
                dp == desc_pred(s, e_id),
                forall|k: int|
                    0 <= k < ancs@.len() ==> reaches_up(s, e_id, #[trigger] ancs@[k]) && ancs@[k]
                        != e_id,
                forall|a: ProposalShortId|
                    reaches_up(s, e_id, a) && a != e_id ==> ancs@.contains(a),
                forall|k: int|
                    0 <= k < descs@.len() ==> reaches_up(s, #[trigger] descs@[k], e_id) && descs@[k]
                        != e_id,
                forall|d: ProposalShortId|
                    reaches_up(s, d, e_id) && d != e_id ==> descs@.contains(d),
                ac == sum_filtered(s, ap, |x: TxEntry| 1int, j as int),
                asz == sum_filtered(s, ap, |x: TxEntry| x.size as int, j as int),
                af == sum_filtered(s, ap, |x: TxEntry| x.fee as int, j as int),
                acy == sum_filtered(s, ap, |x: TxEntry| x.cycles as int, j as int),
                dc == sum_filtered(s, dp, |x: TxEntry| 1int, j as int),
                dsz == sum_filtered(s, dp, |x: TxEntry| x.size as int, j as int),
                df == sum_filtered(s, dp, |x: TxEntry| x.fee as int, j as int),
                dcy == sum_filtered(s, dp, |x: TxEntry| x.cycles as int, j as int),
            decreases s.len() - j,
        {
            let xj = self.entries[j].proposal_short_id();
            proof {
                lemma_entry_of(s, j as int);
                lemma_sum_const(s, n);
                lemma_sum_mono(s, ap, |x: TxEntry| 1int, j as int + 1, n);
                lemma_sum_mono(s, ap, |x: TxEntry| x.size as int, j as int + 1, n);
                lemma_sum_mono(s, ap, |x: TxEntry| x.fee as int, j as int + 1, n);
                lemma_sum_mono(s, ap, |x: TxEntry| x.cycles as int, j as int + 1, n);
                lemma_sum_mono(s, dp, |x: TxEntry| 1int, j as int + 1, n);
                lemma_sum_mono(s, dp, |x: TxEntry| x.size as int, j as int + 1, n);
                lemma_sum_mono(s, dp, |x: TxEntry| x.fee as int, j as int + 1, n);
                lemma_sum_mono(s, dp, |x: TxEntry| x.cycles as int, j as int + 1, n);
                lemma_sum_bounds(s, ap, |x: TxEntry| 1int, n);
                lemma_sum_bounds(s, ap, |x: TxEntry| x.size as int, n);
                lemma_sum_bounds(s, ap, |x: TxEntry| x.fee as int, n);
                lemma_sum_bounds(s, ap, |x: TxEntry| x.cycles as int, n);
                lemma_sum_bounds(s, dp, |x: TxEntry| 1int, n);
                lemma_sum_bounds(s, dp, |x: TxEntry| x.size as int, n);
                lemma_sum_bounds(s, dp, |x: TxEntry| x.fee as int, n);
                lemma_sum_bounds(s, dp, |x: TxEntry| x.cycles as int, n);
                lemma_sum_bounds(s, |x: TxEntry| true, |x: TxEntry| x.size as int, n);
                lemma_sum_bounds(s, |x: TxEntry| true, |x: TxEntry| x.fee as int, n);
                lemma_sum_bounds(s, |x: TxEntry| true, |x: TxEntry| x.cycles as int, n);
            }
            if ids_contains(&ancs, &xj) {
                proof {
                    assert(ap(s[j as int]));
                }
                ac = ac + 1;
                asz = asz + self.entries[j].size;
                af = af + self.entries[j].fee;
                acy = acy + self.entries[j].cycles;
            } else {
                proof {
                    assert(!ap(s[j as int]));
                }
            }
            if ids_contains(&descs, &xj) {
                proof {
                    assert(dp(s[j as int]));
                }
                dc = dc + 1;
                dsz = dsz + self.entries[j].size;
                df = df + self.entries[j].fee;
                dcy = dcy + self.entries[j].cycles;
            } else {
                proof {
                    assert(!dp(s[j as int]));
                }
            }
            j += 1;
        }
        proof {
            lemma_entry_of(s, i as int);
            assert(!ap(s[i as int]));
            assert(!dp(s[i as int]));
            lemma_sum_const(s, n);
            lemma_sum_bounds(s, ap, |x: TxEntry| 1int, n);
            lemma_sum_bounds(s, dp, |x: TxEntry| 1int, n);
            lemma_sum_excluding(s, ap, |x: TxEntry| x.size as int, n, i as int);
            lemma_sum_excluding(s, ap, |x: TxEntry| x.fee as int, n, i as int);
            lemma_sum_excluding(s, ap, |x: TxEntry| x.cycles as int, n, i as int);
            lemma_sum_excluding(s, dp, |x: TxEntry| x.size as int, n, i as int);
            lemma_sum_excluding(s, dp, |x: TxEntry| x.fee as int, n, i as int);
            lemma_sum_excluding(s, dp, |x: TxEntry| x.cycles as int, n, i as int);
        }
        let e_size = self.entries[i].size;
        let e_fee = self.entries[i].fee;
        let e_cycles = self.entries[i].cycles;
        AggRow {
            ac: 1 + ac,
            asz: e_size + asz,
            af: e_fee + af,
            acy: e_cycles + acy,
            dc: 1 + dc,
            dsz: e_size + dsz,
            df: e_fee + df,
            dcy: e_cycles + dcy,
        }
    }

    /// Recompute every entry's aggregates from the dependency graph.
    fn refresh(&mut self)
        requires
            unique_ids(old(self).entries_view()),
            sums_fit(old(self).entries_view()),
        ensures
            final(self).entries_view() == refreshed(old(self).entries_view()),
            final(self).max_ancestors_view() == old(self).max_ancestors_view(),
            final(self).wf(),
    {
        let ghost s0 = self.entries@;
        let n = self.entries.len();
        let mut rows: Vec<AggRow> = Vec::new();
        let mut i: usize = 0;
        while i < n
            invariant
                unique_ids(s0),
                sums_fit(s0),
                s0 == self.entries@,
                n == s0.len(),
                0 <= i <= n,
                rows@.len() == i,
                forall|k: int| 0 <= k < i ==> row_matches(s0, s0[k], #[trigger] rows@[k]),
            decreases n - i,
        {
            let row = self.compute_row(i);
            rows.push(row);
            i += 1;
        }
        let mut i: usize = 0;
        while i < n
            invariant
                unique_ids(s0),
                sums_fit(s0),
                n == s0.len(),
                self.entries@.len() == n,
                self.max_ancestors_count == old(self).max_ancestors_count,
                rows@.len() == n,
                0 <= i <= n,
                forall|k: int| 0 <= k < n ==> row_matches(s0, s0[k], #[trigger] rows@[k]),
                forall|k: int| 0 <= k < i ==> self.entries@[k] == with_aggregates(s0, #[trigger] s0[k]),
                forall|k: int| i <= k < n ==> self.entries@[k] == #[trigger] s0[k],
            decreases n - i,
        {
            let row = rows[i];
            let e = &mut self.entries[i];
            e.ancestors_count = row.ac;
            e.ancestors_size = row.asz;
            e.ancestors_fee = row.af;
            e.ancestors_cycles = row.acy;
            e.descendants_count = row.dc;
            e.descendants_size = row.dsz;
            e.descendants_fee = row.df;
            e.descendants_cycles = row.dcy;
            proof {
                assert(self.entries@[i as int] == with_aggregates(s0, s0[i as int]));
            }
            i += 1;
        }
        proof {
            let sf = self.entries@;
            assert(sf =~= refreshed(s0));
            // the refreshed pool is well-formed
            assert forall|k: int| 0 <= k < sf.len() implies same_own(#[trigger] sf[k], s0[k]) by {}
            assert(unique_ids(sf)) by {
                assert forall|a: int, b: int| 0 <= a < b < sf.len() implies id_of(sf[a]) != id_of(
                    sf[b],
                ) by {
                    assert(same_own(sf[a], s0[a]) && same_own(sf[b], s0[b]));
                    assert(id_of(s0[a]) != id_of(s0[b]));
                }
            }
            assert(sums_fit(sf)) by {
                lemma_sum_congruence(
                    sf,
                    s0,
                    |x: TxEntry| true,
                    |x: TxEntry| true,
                    |x: TxEntry| x.size as int,
                    |x: TxEntry| x.size as int,
                    sf.len() as int,
                );
                lemma_sum_congruence(
                    sf,
                    s0,
                    |x: TxEntry| true,
                    |x: TxEntry| true,
                    |x: TxEntry| x.fee as int,
                    |x: TxEntry| x.fee as int,
                    sf.len() as int,
                );
                lemma_sum_congruence(
                    sf,
                    s0,
                    |x: TxEntry| true,
                    |x: TxEntry| true,
                    |x: TxEntry| x.cycles as int,
                    |x: TxEntry| x.cycles as int,
                    sf.len() as int,
                );
            }
            assert forall|k: int| 0 <= k < sf.len() implies sf[k] == with_aggregates(
                sf,
                #[trigger] sf[k],
            ) by {
                lemma_aggregates_congruence(s0, sf, s0[k], sf[k]);
            }
        }
    }
}

/// Well-formed pool entries: ids unique, sums in range, and every stored
/// aggregate equal to its recomputation from the dependency graph.
pub open spec fn pool_wf(s: Seq<TxEntry>) -> bool {
    &&& unique_ids(s)
    &&& sums_fit(s)
    &&& (forall|i: int| 0 <= i < s.len() ==> s[i] == with_aggregates(s, #[trigger] s[i]))
}

/// Whether some entry of `s` spends an outpoint that `e` spends too.
pub open spec fn conflicts_with(s: Seq<TxEntry>, e: TxEntry) -> bool {
    exists|j: int, a: int, b: int|
        #![trigger s[j].tx.inputs@[a], e.tx.inputs@[b]]
        0 <= j < s.len() && 0 <= a < s[j].tx.inputs@.len() && 0 <= b < e.tx.inputs@.len()
            && s[j].tx.inputs@[a] == e.tx.inputs@[b]
}

/// An outpoint both spent by some entry of `s` and by `e`.
pub open spec fn conflict_at(s: Seq<TxEntry>, e: TxEntry, op: OutPoint) -> bool {
    &&& (exists|j: int, a: int|
        #![trigger s[j].tx.inputs@[a]]
        0 <= j < s.len() && 0 <= a < s[j].tx.inputs@.len() && s[j].tx.inputs@[a] == op)
    &&& e.tx.inputs@.contains(op)
}

/// An outpoint held by both vectors, if any.
fn common_outpoint(xs: &Vec<OutPoint>, ys: &Vec<OutPoint>) -> (r: Option<OutPoint>)
    ensures
        match r {
            Some(op) => xs@.contains(op) && ys@.contains(op),
            None => forall|a: int, b: int|
                0 <= a < xs@.len() && 0 <= b < ys@.len() ==> xs@[a] != ys@[b],
        },
{
    let mut a: usize = 0;
    while a < xs.len()
        invariant
            0 <= a <= xs@.len(),
            forall|i: int, b: int| 0 <= i < a && 0 <= b < ys@.len() ==> xs@[i] != ys@[b],
        decreases xs@.len() - a,
    {
        let mut b: usize = 0;
        while b < ys.len()
            invariant
                0 <= a < xs@.len(),
                0 <= b <= ys@.len(),
                forall|i: int, bb: int| 0 <= i < a && 0 <= bb < ys@.len() ==> xs@[i] != ys@[bb],
                forall|bb: int| 0 <= bb < b ==> xs@[a as int] != ys@[bb],
            decreases ys@.len() - b,
        {
            if xs[a] == ys[b] {
                proof {
                    assert(xs@[a as int] == ys@[b as int]);
                }
                return Some(xs[a]);
            }
            b += 1;
        }
        a += 1;
    }
    None
}

/// The unfiltered sum of the constant one counts the entries.
pub proof fn lemma_sum_const(s: Seq<TxEntry>, n: int)
    requires
        0 <= n <= s.len(),
    ensures
        sum_filtered(s, |x: TxEntry| true, |x: TxEntry| 1int, n) == n,
    decreases n,
{
    if n > 0 {
        lemma_sum_const(s, n - 1);
    }
}

/// Prefix sums are monotone for a non-negative measure.
pub proof fn lemma_sum_mono(
    s: Seq<TxEntry>,
    pred: spec_fn(TxEntry) -> bool,
    f: spec_fn(TxEntry) -> int,
    n1: int,
    n2: int,
)
    requires
        0 <= n1 <= n2 <= s.len(),
        forall|x: TxEntry| #[trigger] f(x) >= 0,
    ensures
        sum_filtered(s, pred, f, n1) <= sum_filtered(s, pred, f, n2),
    decreases n2 - n1,
{
    if n1 < n2 {
        lemma_sum_mono(s, pred, f, n1, n2 - 1);
    }
}

/// A filtered sum that misses `s[i0]` stays under the total by `f(s[i0])`.
pub proof fn lemma_sum_excluding(
    s: Seq<TxEntry>,
    pred: spec_fn(TxEntry) -> bool,
    f: spec_fn(TxEntry) -> int,
    n: int,
    i0: int,
)
    requires
        0 <= i0 < n <= s.len(),
        !pred(s[i0]),
        forall|x: TxEntry| #[trigger] f(x) >= 0,
    ensures
        sum_filtered(s, pred, f, n) + f(s[i0]) <= sum_filtered(s, |x: TxEntry| true, f, n),
    decreases n,
{
    if i0 == n - 1 {
        lemma_sum_bounds(s, pred, f, n - 1);
    } else {
        lemma_sum_excluding(s, pred, f, n - 1, i0);
    }
}

/// Pushing an entry adds its own value to the total.
pub proof fn lemma_total_push(s: Seq<TxEntry>, e: TxEntry, f: spec_fn(TxEntry) -> int)
    ensures
        sum_filtered(s.push(e), |x: TxEntry| true, f, s.len() as int + 1) == sum_filtered(
            s,
            |x: TxEntry| true,
            f,
            s.len() as int,
        ) + f(e),
{
    let t = s.push(e);
    assert(t[s.len() as int] == e);
    lemma_sum_congruence(
        t,
        s,
        |x: TxEntry| true,
        |x: TxEntry| true,
        f,
        f,
        s.len() as int,
    );
}

/// Two ownwise-equal pools give every entry the same recomputed aggregates.
pub proof fn lemma_aggregates_congruence(s1: Seq<TxEntry>, s2: Seq<TxEntry>, e1: TxEntry, e2: TxEntry)
    requires
        s1.len() == s2.len(),
        forall|i: int| 0 <= i < s1.len() ==> same_own(#[trigger] s1[i], s2[i]),
        unique_ids(s1),
        same_own(e1, e2),
    ensures
        with_aggregates(s1, e1).ancestors_count == with_aggregates(s2, e2).ancestors_count,
        with_aggregates(s1, e1).ancestors_size == with_aggregates(s2, e2).ancestors_size,
        with_aggregates(s1, e1).ancestors_fee == with_aggregates(s2, e2).ancestors_fee,
        with_aggregates(s1, e1).ancestors_cycles == with_aggregates(s2, e2).ancestors_cycles,
        with_aggregates(s1, e1).descendants_count == with_aggregates(s2, e2).descendants_count,
        with_aggregates(s1, e1).descendants_size == with_aggregates(s2, e2).descendants_size,
        with_aggregates(s1, e1).descendants_fee == with_aggregates(s2, e2).descendants_fee,
        with_aggregates(s1, e1).descendants_cycles == with_aggregates(s2, e2).descendants_cycles,
{
    let id = id_of(e1);
    assert(id_of(e2) == id);
    assert(unique_ids(s2)) by {
        assert forall|i: int, j: int| 0 <= i < j < s2.len() implies id_of(s2[i]) != id_of(
            s2[j],
        ) by {
            assert(same_own(s1[i], s2[i]) && same_own(s1[j], s2[j]));
            assert(id_of(s1[i]) != id_of(s1[j]));
        }
    }
    assert forall|i: int| 0 <= i < s1.len() implies anc_pred(s1, id)(#[trigger] s1[i]) == anc_pred(
        s2,
        id,
    )(s2[i]) by {
        assert(id_of(s1[i]) == id_of(s2[i]));
        if reaches_up(s1, id, id_of(s1[i])) {
            lemma_reaches_congruence(s1, s2, id, id_of(s1[i]));
        }
        if reaches_up(s2, id, id_of(s2[i])) {
            lemma_reaches_congruence(s2, s1, id, id_of(s2[i]));
        }
    }
    assert forall|i: int| 0 <= i < s1.len() implies desc_pred(s1, id)(#[trigger] s1[i]) == desc_pred(
        s2,
        id,
    )(s2[i]) by {
        assert(id_of(s1[i]) == id_of(s2[i]));
        if reaches_up(s1, id_of(s1[i]), id) {
            lemma_reaches_congruence(s1, s2, id_of(s1[i]), id);
        }
        if reaches_up(s2, id_of(s2[i]), id) {
            lemma_reaches_congruence(s2, s1, id_of(s2[i]), id);
        }
    }
    let n = s1.len() as int;
    lemma_sum_congruence(s1, s2, anc_pred(s1, id), anc_pred(s2, id), |x: TxEntry| 1int, |x: TxEntry| 1int, n);
    lemma_sum_congruence(s1, s2, anc_pred(s1, id), anc_pred(s2, id), |x: TxEntry| x.size as int, |x: TxEntry| x.size as int, n);
    lemma_sum_congruence(s1, s2, anc_pred(s1, id), anc_pred(s2, id), |x: TxEntry| x.fee as int, |x: TxEntry| x.fee as int, n);
    lemma_sum_congruence(s1, s2, anc_pred(s1, id), anc_pred(s2, id), |x: TxEntry| x.cycles as int, |x: TxEntry| x.cycles as int, n);
    lemma_sum_congruence(s1, s2, desc_pred(s1, id), desc_pred(s2, id), |x: TxEntry| 1int, |x: TxEntry| 1int, n);
    lemma_sum_congruence(s1, s2, desc_pred(s1, id), desc_pred(s2, id), |x: TxEntry| x.size as int, |x: TxEntry| x.size as int, n);
    lemma_sum_congruence(s1, s2, desc_pred(s1, id), desc_pred(s2, id), |x: TxEntry| x.fee as int, |x: TxEntry| x.fee as int, n);
    lemma_sum_congruence(s1, s2, desc_pred(s1, id), desc_pred(s2, id), |x: TxEntry| x.cycles as int, |x: TxEntry| x.cycles as int, n);
}

/// Recomputation depends only on the own fields.
pub proof fn lemma_refreshed_congruence(s1: Seq<TxEntry>, s2: Seq<TxEntry>)
    requires
        s1.len() == s2.len(),
        forall|i: int| 0 <= i < s1.len() ==> same_own(#[trigger] s1[i], s2[i]),
        unique_ids(s1),
    ensures
        refreshed(s1) == refreshed(s2),
{
    assert forall|i: int| 0 <= i < s1.len() implies refreshed(s1)[i] == refreshed(s2)[i] by {
        lemma_aggregates_congruence(s1, s2, s1[i], s2[i]);
        assert(with_aggregates(s1, s1[i]).tx == with_aggregates(s2, s2[i]).tx);
    }
    assert(refreshed(s1) =~= refreshed(s2));
}

/// On a well-formed pool, recomputation changes nothing.
pub proof fn lemma_refresh_identity(s: Seq<TxEntry>)
    requires
        pool_wf(s),
    ensures
        refreshed(s) == s,
{
    assert forall|i: int| 0 <= i < s.len() implies refreshed(s)[i] == s[i] by {
        assert(s[i] == with_aggregates(s, s[i]));
    }
    assert(refreshed(s) =~= s);
}

/// Ancestor accounting law: in a well-formed pool, every entry's
/// `ancestors_count` is one plus the number of its unique strict transitive
/// parents, its `ancestors_size`/`fee`/`cycles` are its own value plus the
/// sum over those parents, and likewise for descendants. This holds again
/// after every pool mutation, since each re-establishes well-formedness.
pub proof fn lemma_ancestor_accounting(pool: PoolMap, i: int)
    requires
        pool.wf(),
        0 <= i < pool.entries_view().len(),
    ensures
        pool.entries_view()[i].ancestors_count == 1 + sum_filtered(
            pool.entries_view(),
            anc_pred(pool.entries_view(), id_of(pool.entries_view()[i])),
            |x: TxEntry| 1int,
            pool.entries_view().len() as int,
        ),
        pool.entries_view()[i].ancestors_size == pool.entries_view()[i].size + sum_filtered(
            pool.entries_view(),
            anc_pred(pool.entries_view(), id_of(pool.entries_view()[i])),
            |x: TxEntry| x.size as int,
            pool.entries_view().len() as int,
        ),
        pool.entries_view()[i].ancestors_fee == pool.entries_view()[i].fee + sum_filtered(
            pool.entries_view(),
            anc_pred(pool.entries_view(), id_of(pool.entries_view()[i])),
            |x: TxEntry| x.fee as int,
            pool.entries_view().len() as int,
        ),
        pool.entries_view()[i].descendants_count == 1 + sum_filtered(
            pool.entries_view(),
            desc_pred(pool.entries_view(), id_of(pool.entries_view()[i])),
            |x: TxEntry| 1int,
            pool.entries_view().len() as int,
        ),
    {
    let s = pool.entries_view();
    let e = s[i];
    assert(e == with_aggregates(s, e));
    let ap = anc_pred(s, id_of(e));
    let dp = desc_pred(s, id_of(e));
    let n = s.len() as int;
    lemma_sum_const(s, n);
    lemma_sum_bounds(s, ap, |x: TxEntry| 1int, n);
    lemma_sum_bounds(s, dp, |x: TxEntry| 1int, n);
    lemma_sum_bounds(s, ap, |x: TxEntry| x.size as int, n);
    lemma_sum_bounds(s, ap, |x: TxEntry| x.fee as int, n);
    lemma_entry_of(s, i);
    assert(!ap(s[i]));
    assert(!dp(s[i]));
    lemma_sum_excluding(s, ap, |x: TxEntry| x.size as int, n, i);
    lemma_sum_excluding(s, ap, |x: TxEntry| x.fee as int, n, i);
}

/// Removing an entry subtracts its own value from the total.
pub proof fn lemma_sum_remove(s: Seq<TxEntry>, f: spec_fn(TxEntry) -> int, i: int)
    requires
        0 <= i < s.len(),
    ensures
        sum_filtered(s.remove(i), |x: TxEntry| true, f, s.len() as int - 1) == sum_filtered(
            s,
            |x: TxEntry| true,
            f,
            s.len() as int,
        ) - f(s[i]),
    decreases s.len(),
{
    let n = s.len() as int;
    if i == n - 1 {
        assert(s.remove(i) =~= s.drop_last());
        lemma_sum_congruence(
            s.remove(i),
            s,
            |x: TxEntry| true,
            |x: TxEntry| true,
            f,
            f,
            n - 1,
        );
    } else {
        let d = s.drop_last();
        assert(d.remove(i).push(s[n - 1]) =~= s.remove(i));
        lemma_sum_remove(d, f, i);
        assert(d[i] == s[i]);
        lemma_sum_congruence(
            d,
            s,
            |x: TxEntry| true,
            |x: TxEntry| true,
            f,
            f,
            n - 1,
        );
        lemma_sum_congruence(
            s.remove(i),
            d.remove(i),
            |x: TxEntry| true,
            |x: TxEntry| true,
            f,
            f,
            n - 2,
        );
        assert(s.remove(i)[n - 2] == s[n - 1]);
    }
}

impl PoolMap {
    fn find_conflict(&self, entry: &TxEntry) -> (r: Option<OutPoint>)
        ensures
            match r {
                Some(op) => conflict_at(self.entries_view(), *entry, op),
                None => !conflicts_with(self.entries_view(), *entry),
            },
    {
        let mut j: usize = 0;
        while j < self.entries.len()
            invariant
                0 <= j <= self.entries@.len(),
                forall|jj: int, a: int, b: int|
                    #![trigger self.entries@[jj].tx.inputs@[a], entry.tx.inputs@[b]]
                    0 <= jj < j && 0 <= a < self.entries@[jj].tx.inputs@.len() && 0 <= b
                        < entry.tx.inputs@.len() ==> self.entries@[jj].tx.inputs@[a]
                        != entry.tx.inputs@[b],
            decreases self.entries@.len() - j,
        {
            match common_outpoint(&self.entries[j].tx.inputs, &entry.tx.inputs) {
                Some(op) => {
                    proof {
                        let a = choose|a: int|
                            0 <= a < self.entries@[j as int].tx.inputs@.len()
                                && self.entries@[j as int].tx.inputs@[a] == op;
                    }
                    return Some(op);
                }
                None => {}
            }
            j += 1;
        }
        None
    }

    /// Admit `entry` into the pool. The entry is refused when it is already
    /// present, when another pool transaction spends one of its inputs, or
    /// when it would carry more than the allowed number of ancestors;
    /// otherwise it is appended and every aggregate is re-established.
    pub fn add_proposed(&mut self, entry: TxEntry) -> (r: Result<(), Reject>)
        requires
            old(self).wf(),
            total_size(old(self).entries_view()) + entry.size <= u64::MAX,
            total_fee(old(self).entries_view()) + entry.fee <= u64::MAX,
            total_cycles(old(self).entries_view()) + entry.cycles <= u64::MAX,
            old(self).entries_view().len() + 2 <= u64::MAX,
        ensures
            final(self).wf(),
            final(self).max_ancestors_view() == old(self).max_ancestors_view(),
            match r {
                Ok(()) => {
                    &&& !has_id(old(self).entries_view(), id_of(entry))
                    &&& !conflicts_with(old(self).entries_view(), entry)
                    &&& with_aggregates(
                        old(self).entries_view().push(entry),
                        entry,
                    ).ancestors_count as int <= old(self).max_ancestors_view()
                    &&& final(self).entries_view() == refreshed(
                        old(self).entries_view().push(entry),
                    )
                },
                Err(Reject::Duplicate) => has_id(old(self).entries_view(), id_of(entry)) && final(self).entries_view() == old(self).entries_view(),
                Err(Reject::Conflict(op)) => !has_id(old(self).entries_view(), id_of(entry))
                    && conflict_at(old(self).entries_view(), entry, op) && final(self).entries_view() == old(self).entries_view(),
                Err(Reject::TooManyAncestors) => !has_id(old(self).entries_view(), id_of(entry))
                    && !conflicts_with(old(self).entries_view(), entry) && with_aggregates(
                    old(self).entries_view().push(entry),
                    entry,
                ).ancestors_count as int > old(self).max_ancestors_view() && final(self).entries_view() == old(self).entries_view(),
                Err(_) => false,
            },
    {
        let ghost s0 = self.entries@;
        let id = entry.proposal_short_id();
        if self.contains_key(&id) {
            return Err(Reject::Duplicate);
        }
        match self.find_conflict(&entry) {
            Some(op) => {
                return Err(Reject::Conflict(op));
            }
            None => {}
        }
        let n = self.entries.len();
        self.entries.push(entry);
        let ghost pushed = self.entries@;
        proof {
            assert(pushed[n as int] == entry);
            assert(unique_ids(pushed)) by {
                assert forall|a: int, b: int| 0 <= a < b < pushed.len() implies id_of(pushed[a])
                    != id_of(pushed[b]) by {
                    if b < n {
                        assert(pushed[a] == s0[a] && pushed[b] == s0[b]);
                    } else {
                        assert(pushed[a] == s0[a] && pushed[b] == entry);
                        if id_of(s0[a]) == id_of(entry) {
                            assert(has_id(s0, id_of(entry)));
                        }
                    }
                }
            }
            assert(sums_fit(pushed)) by {
                lemma_total_push(s0, entry, |x: TxEntry| x.size as int);
                lemma_total_push(s0, entry, |x: TxEntry| x.fee as int);
                lemma_total_push(s0, entry, |x: TxEntry| x.cycles as int);
            }
        }
        self.refresh();
        let count = self.entries[n].ancestors_count;
        proof {
            assert(self.entries@[n as int] == with_aggregates(pushed, entry));
        }
        if count > self.max_ancestors_count as u64 {
            let ghost t = self.entries@;
            self.entries.remove(n);
            let ghost y = self.entries@;
            proof {
                assert(y =~= t.remove(n as int));
                assert forall|i: int| 0 <= i < y.len() implies same_own(#[trigger] y[i], s0[i]) by {
                    assert(y[i] == t[i]);
                    assert(t[i] == with_aggregates(pushed, pushed[i]));
                    assert(pushed[i] == s0[i]);
                }
                assert(unique_ids(y)) by {
                    assert forall|a: int, b: int| 0 <= a < b < y.len() implies id_of(y[a])
                        != id_of(y[b]) by {
                        assert(same_own(y[a], s0[a]) && same_own(y[b], s0[b]));
                        assert(id_of(s0[a]) != id_of(s0[b]));
                    }
                }
                assert(sums_fit(y)) by {
                    lemma_sum_congruence(
                        y,
                        s0,
                        |x: TxEntry| true,
                        |x: TxEntry| true,
                        |x: TxEntry| x.size as int,
                        |x: TxEntry| x.size as int,
                        y.len() as int,
                    );
                    lemma_sum_congruence(
                        y,
                        s0,
                        |x: TxEntry| true,
                        |x: TxEntry| true,
                        |x: TxEntry| x.fee as int,
                        |x: TxEntry| x.fee as int,
                        y.len() as int,
                    );
                    lemma_sum_congruence(
                        y,
                        s0,
                        |x: TxEntry| true,
                        |x: TxEntry| true,
                        |x: TxEntry| x.cycles as int,
                        |x: TxEntry| x.cycles as int,
                        y.len() as int,
                    );
                }
            }
            self.refresh();
            proof {
                lemma_refreshed_congruence(y, s0);
                lemma_refresh_identity(s0);
            }
            return Err(Reject::TooManyAncestors);
        }
        Ok(())
    }

    /// Detach exactly the entry under `id`, re-establishing every remaining
    /// aggregate against the graph without it.
    pub fn remove_entry(&mut self, id: &ProposalShortId) -> (r: Option<TxEntry>)
        requires
            old(self).wf(),
        ensures
            final(self).wf(),
            final(self).max_ancestors_view() == old(self).max_ancestors_view(),
            match r {
                None => !has_id(old(self).entries_view(), *id) && final(self).entries_view() == old(
                    self,
                ).entries_view(),
                Some(e) => has_id(old(self).entries_view(), *id) && e == entry_of(
                    old(self).entries_view(),
                    *id,
                ) && final(self).entries_view() == refreshed(
                    old(self).entries_view().remove(idx_of(old(self).entries_view(), *id)),
                ),
            },
    {
        let ghost s0 = self.entries@;
        match self.find_index(id) {
            None => None,
            Some(i) => {
                proof {
                    lemma_entry_of(s0, i as int);
                }
                let e = self.entries.remove(i);
                let ghost y = self.entries@;
                proof {
                    assert(y =~= s0.remove(i as int));
                    assert forall|a: int, b: int| 0 <= a < b < y.len() implies id_of(y[a])
                        != id_of(y[b]) by {
                        let a2: int = if a < i {
                            a
                        } else {
                            a + 1
                        };
                        let b2: int = if b < i {
                            b
                        } else {
                            b + 1
                        };
                        assert(y[a] == s0[a2] && y[b] == s0[b2]);
                    }
                    assert(sums_fit(y)) by {
                        lemma_sum_remove(s0, |x: TxEntry| x.size as int, i as int);
                        lemma_sum_remove(s0, |x: TxEntry| x.fee as int, i as int);
                        lemma_sum_remove(s0, |x: TxEntry| x.cycles as int, i as int);
                        lemma_sum_bounds(
                            s0,
                            |x: TxEntry| true,
                            |x: TxEntry| x.size as int,
                            s0.len() as int,
                        );
                        lemma_sum_bounds(
                            s0,
                            |x: TxEntry| true,
                            |x: TxEntry| x.fee as int,
                            s0.len() as int,
                        );
                        lemma_sum_bounds(
                            s0,
                            |x: TxEntry| true,
                            |x: TxEntry| x.cycles as int,
                            s0.len() as int,
                        );
                    }
                }
                self.refresh();
                Some(e)
            }
        }
    }
}

impl PoolMap {
    /// Remove the entry under `id` together with every transitive
    /// descendant, returning the removed entries; the survivors'
    /// aggregates are re-established.
    pub fn remove_entry_and_descendants(&mut self, id: &ProposalShortId) -> (r: Vec<TxEntry>)
        requires
            old(self).wf(),
        ensures
            final(self).wf(),
            final(self).max_ancestors_view() == old(self).max_ancestors_view(),
            forall|x: ProposalShortId|
                #[trigger] has_id(final(self).entries_view(), x) <==> (has_id(
                    old(self).entries_view(),
                    x,
                ) && x != id && !reaches_up(old(self).entries_view(), x, *id)),
            forall|x: ProposalShortId|
                has_id(final(self).entries_view(), x) ==> same_own(
                    #[trigger] entry_of(final(self).entries_view(), x),
                    entry_of(old(self).entries_view(), x),
                ),
            forall|k: int|
                0 <= k < r@.len() ==> has_id(old(self).entries_view(), id_of(#[trigger] r@[k]))
                    && r@[k] == entry_of(old(self).entries_view(), id_of(r@[k])) && (id_of(r@[k])
                    == id || reaches_up(old(self).entries_view(), id_of(r@[k]), *id)),
            forall|x: ProposalShortId|
                has_id(old(self).entries_view(), x) && (x == id || reaches_up(
                    old(self).entries_view(),
                    x,
                    *id,
                )) ==> exists|k: int| 0 <= k < r@.len() && id_of(#[trigger] r@[k]) == x,
            final(self).entries_view().len() + r@.len() == old(self).entries_view().len(),
            has_id(old(self).entries_view(), *id) ==> r@.len() >= 1,
    {
        let ghost s0 = self.entries@;
        let descs = self.calc_descendants(id);
        let ghost dv = descs@;
        let mut kept: Vec<TxEntry> = Vec::new();
        let mut removed: Vec<TxEntry> = Vec::new();
        // where each drained entry went: an index into `kept` or `removed`
        let ghost mut pos: Seq<int> = Seq::empty();
        let ghost mut kidx: Seq<int> = Seq::empty();
        let ghost mut ridx: Seq<int> = Seq::empty();
        let mut t: usize = 0;
        let n = self.entries.len();
        while t < n
            invariant
                unique_ids(s0),
                sums_fit(s0),
                self.entries@ == s0.subrange(t as int, n as int),
                n == s0.len(),
                0 <= t <= n,
                dv == descs@,
                self.max_ancestors_count == old(self).max_ancestors_count,
                kept@.len() + removed@.len() == t,
                pos.len() == t,
                kidx.len() == kept@.len(),
                ridx.len() == removed@.len(),
                forall|k: int|
                    #![trigger kidx[k]]
                    0 <= k < kept@.len() ==> 0 <= kidx[k] < t && kept@[k] == s0[kidx[k]] && !(
                    id_of(s0[kidx[k]]) == id || dv.contains(id_of(s0[kidx[k]]))),
                forall|k: int|
                    #![trigger ridx[k]]
                    0 <= k < removed@.len() ==> 0 <= ridx[k] < t && removed@[k] == s0[ridx[k]] && (
                    id_of(s0[ridx[k]]) == id || dv.contains(id_of(s0[ridx[k]]))),
                forall|jj: int|
                    0 <= jj < t && (id_of(#[trigger] s0[jj]) == id || dv.contains(id_of(s0[jj])))
                        ==> 0 <= pos[jj] < removed@.len() && removed@[pos[jj]] == s0[jj],
                forall|jj: int|
                    0 <= jj < t && !(id_of(#[trigger] s0[jj]) == id || dv.contains(id_of(s0[jj])))
                        ==> 0 <= pos[jj] < kept@.len() && kept@[pos[jj]] == s0[jj],
                forall|k1: int, k2: int|
                    0 <= k1 < k2 < kidx.len() ==> #[trigger] kidx[k1] < #[trigger] kidx[k2],
                total_size(kept@) <= sum_filtered(
                    s0,
                    |x: TxEntry| true,
                    |x: TxEntry| x.size as int,
                    t as int,
                ),
                total_fee(kept@) <= sum_filtered(
                    s0,
                    |x: TxEntry| true,
                    |x: TxEntry| x.fee as int,
                    t as int,
                ),
                total_cycles(kept@) <= sum_filtered(
                    s0,
                    |x: TxEntry| true,
                    |x: TxEntry| x.cycles as int,
                    t as int,
                ),
            decreases n - t,
        {
            let ghost kpre = kept@;
            let e = self.entries.remove(0);
            proof {
                assert(e == s0[t as int]);
                assert(self.entries@ =~= s0.subrange(t as int + 1, n as int));
                lemma_entry_of(s0, t as int);
                lemma_sum_mono(
                    s0,
                    |x: TxEntry| true,
                    |x: TxEntry| x.size as int,
                    t as int,
                    t as int + 1,
                );
                lemma_sum_mono(
                    s0,
                    |x: TxEntry| true,
                    |x: TxEntry| x.fee as int,
                    t as int,
                    t as int + 1,
                );
                lemma_sum_mono(
                    s0,
                    |x: TxEntry| true,
                    |x: TxEntry| x.cycles as int,
                    t as int,
                    t as int + 1,
                );
            }
            let e_id = e.proposal_short_id();
            let is_root = e_id == *id;
            let is_desc = ids_contains(&descs, &e_id);
            if is_root || is_desc {
                let ghost rpre = removed@;
                let ghost rxpre = ridx;
                let ghost ppre = pos;
                removed.push(e);
                proof {
                    assert(e_id == id_of(s0[t as int]));
                    assert(id_of(s0[t as int]) == id || dv.contains(id_of(s0[t as int])));
                    pos = pos.push(removed@.len() - 1);
                    ridx = ridx.push(t as int);
                    assert(removed@ == rpre.push(s0[t as int]));
                    assert(pos == ppre.push(rpre.len() as int));
                    assert(ridx == rxpre.push(t as int));
                    assert(removed@[removed@.len() - 1] == s0[t as int]);
                    assert(ridx[ridx.len() - 1] == t as int);
                    assert forall|k: int|
                        #![trigger ridx[k]]
                        0 <= k < removed@.len() implies 0 <= ridx[k] < t + 1 && removed@[k]
                            == s0[ridx[k]] && (id_of(s0[ridx[k]]) == id || dv.contains(
                            id_of(s0[ridx[k]]),
                        )) by {
                        if k < removed@.len() - 1 {
                            assert(removed@[k] == rpre[k]);
                            assert(ridx[k] == rxpre[k]);
                        }
                    }
                    assert forall|jj: int|
                        0 <= jj < t + 1 && (id_of(#[trigger] s0[jj]) == id || dv.contains(
                            id_of(s0[jj]),
                        )) implies 0 <= pos[jj] < removed@.len() && removed@[pos[jj]]
                        == s0[jj] by {
                        if jj < t {
                            assert(pos[jj] == ppre[jj]);
                            assert(removed@[pos[jj]] == rpre[pos[jj]]);
                        } else {
                            assert(pos[jj] == removed@.len() - 1);
                        }
                    }
                    assert forall|jj: int|
                        0 <= jj < t + 1 && !(id_of(#[trigger] s0[jj]) == id || dv.contains(
                            id_of(s0[jj]),
                        )) implies 0 <= pos[jj] < kept@.len() && kept@[pos[jj]] == s0[jj] by {
                        assert(jj < t);
                        assert(pos[jj] == ppre[jj]);
                    }
                }
            } else {
                let ghost kxpre = kidx;
                let ghost ppre = pos;
                kept.push(e);
                proof {
                    assert(e_id == id_of(s0[t as int]));
                    assert(!(id_of(s0[t as int]) == id || dv.contains(id_of(s0[t as int]))));
                    pos = pos.push(kept@.len() - 1);
                    kidx = kidx.push(t as int);
                    assert(kept@ == kpre.push(s0[t as int]));
                    assert(pos == ppre.push(kpre.len() as int));
                    assert(kidx == kxpre.push(t as int));
                    assert(kept@[kept@.len() - 1] == s0[t as int]);
                    assert(kidx[kidx.len() - 1] == t as int);
                    lemma_total_push(kpre, s0[t as int], |x: TxEntry| x.size as int);
                    lemma_total_push(kpre, s0[t as int], |x: TxEntry| x.fee as int);
                    lemma_total_push(kpre, s0[t as int], |x: TxEntry| x.cycles as int);
                    assert forall|k: int|
                        #![trigger kidx[k]]
                        0 <= k < kept@.len() implies 0 <= kidx[k] < t + 1 && kept@[k]
                            == s0[kidx[k]] && !(id_of(s0[kidx[k]]) == id || dv.contains(
                            id_of(s0[kidx[k]]),
                        )) by {
                        if k < kept@.len() - 1 {
                            assert(kept@[k] == kpre[k]);
                            assert(kidx[k] == kxpre[k]);
                        }
                    }
                    assert forall|jj: int|
                        0 <= jj < t + 1 && !(id_of(#[trigger] s0[jj]) == id || dv.contains(
                            id_of(s0[jj]),
                        )) implies 0 <= pos[jj] < kept@.len() && kept@[pos[jj]] == s0[jj] by {
                        if jj < t {
                            assert(pos[jj] == ppre[jj]);
                            assert(kept@[pos[jj]] == kpre[pos[jj]]);
                        } else {
                            assert(pos[jj] == kept@.len() - 1);
                        }
                    }
                    assert forall|jj: int|
                        0 <= jj < t + 1 && (id_of(#[trigger] s0[jj]) == id || dv.contains(
                            id_of(s0[jj]),
                        )) implies 0 <= pos[jj] < removed@.len() && removed@[pos[jj]]
                        == s0[jj] by {
                        assert(jj < t);
                        assert(pos[jj] == ppre[jj]);
                    }
                    assert forall|k1: int, k2: int|
                        0 <= k1 < k2 < kidx.len() implies #[trigger] kidx[k1] < #[trigger] kidx[k2] by {
                        if k2 < kidx.len() - 1 {
                            assert(kidx[k1] == kxpre[k1] && kidx[k2] == kxpre[k2]);
                        } else {
                            assert(kidx[k1] == kxpre[k1]);
                            assert(kxpre[k1] < t as int);
                        }
                    }
                }
            }
            t += 1;
        }
        proof {
            // membership in the computed descendant list is reachability
            assert forall|x: ProposalShortId|
                (x == id || dv.contains(x)) <==> ((x == id || reaches_up(s0, x, *id))
                    && (x == id || has_id(s0, x))) by {
                if dv.contains(x) {
                    let w = choose|w: int| 0 <= w < dv.len() && dv[w] == x;
                    assert(reaches_up(s0, dv[w], *id));
                    let c = choose|c: Seq<ProposalShortId>|
                        is_parent_chain(s0, c) && c[0] == x && c.last() == *id;
                    assert(has_id(s0, c[0]));
                }
                if x != id && reaches_up(s0, x, *id) {
                    assert(dv.contains(x));
                }
            }
            // kept entries have distinct ids
            assert forall|k1: int, k2: int|
                0 <= k1 < k2 < kept@.len() implies id_of(#[trigger] kept@[k1]) != id_of(
                #[trigger] kept@[k2],
            ) by {
                assert(kidx[k1] < kidx[k2]);
                assert(id_of(s0[kidx[k1]]) != id_of(s0[kidx[k2]]));
            }
        }
        self.entries = kept;
        let ghost y = self.entries@;
        proof {
            assert(unique_ids(y));
            assert(sums_fit(y)) by {
                assert(total_size(y) <= total_size(s0));
                assert(total_fee(y) <= total_fee(s0));
                assert(total_cycles(y) <= total_cycles(s0));
                assert(y.len() <= s0.len()) by {
                    lemma_sum_const(s0, n as int);
                }
            }
        }
        self.refresh();
        proof {
            let yf = self.entries@;
            assert(yf == refreshed(y));
            assert forall|x: ProposalShortId| #[trigger]
                has_id(yf, x) <==> (has_id(s0, x) && x != id && !reaches_up(s0, x, *id)) by {
                if has_id(yf, x) {
                    let k = choose|k: int| 0 <= k < yf.len() && id_of(yf[k]) == x;
                    assert(yf[k] == with_aggregates(y, y[k]));
                    assert(id_of(y[k]) == x);
                    assert(y[k] == s0[kidx[k]]);
                    assert(has_id(s0, x)) by {
                        assert(id_of(s0[kidx[k]]) == x);
                    }
                    assert(!(x == id || dv.contains(x)));
                }
                if has_id(s0, x) && x != id && !reaches_up(s0, x, *id) {
                    let jj = choose|jj: int| 0 <= jj < s0.len() && id_of(s0[jj]) == x;
                    assert(!(id_of(s0[jj]) == id || dv.contains(id_of(s0[jj]))));
                    assert(y[pos[jj]] == s0[jj]);
                    assert(id_of(yf[pos[jj]]) == x) by {
                        assert(yf[pos[jj]] == with_aggregates(y, y[pos[jj]]));
                    }
                }
            }
            assert forall|x: ProposalShortId| has_id(yf, x) implies same_own(
                #[trigger] entry_of(yf, x),
                entry_of(s0, x),
            ) by {
                let k = choose|k: int| 0 <= k < yf.len() && id_of(yf[k]) == x;
                assert(unique_ids(yf)) by {
                    assert forall|a: int, b: int| 0 <= a < b < yf.len() implies id_of(yf[a])
                        != id_of(yf[b]) by {
                        assert(yf[a] == with_aggregates(y, y[a]));
                        assert(yf[b] == with_aggregates(y, y[b]));
                    }
                }
                lemma_entry_of(yf, k);
                assert(entry_of(yf, x) == yf[k]);
                assert(yf[k] == with_aggregates(y, y[k]));
                assert(y[k] == s0[kidx[k]]);
                lemma_entry_of(s0, kidx[k]);
                assert(entry_of(s0, x) == s0[kidx[k]]);
            }
            assert forall|k: int| 0 <= k < removed@.len() implies has_id(
                s0,
                id_of(#[trigger] removed@[k]),
            ) && removed@[k] == entry_of(s0, id_of(removed@[k])) && (id_of(removed@[k]) == id
                || reaches_up(s0, id_of(removed@[k]), *id)) by {
                assert(removed@[k] == s0[ridx[k]]);
                lemma_entry_of(s0, ridx[k]);
            }
            assert forall|x: ProposalShortId|
                has_id(s0, x) && (x == id || reaches_up(s0, x, *id)) implies exists|k: int|
                0 <= k < removed@.len() && id_of(#[trigger] removed@[k]) == x by {
                let jj = choose|jj: int| 0 <= jj < s0.len() && id_of(s0[jj]) == x;
                assert(id_of(s0[jj]) == id || dv.contains(id_of(s0[jj])));
                assert(removed@[pos[jj]] == s0[jj]);
                assert(id_of(removed@[pos[jj]]) == x);
            }
        }
        removed
    }
}

/// The minimum fee a transaction of `size` bytes must pay under a fee-rate
/// floor of `min_fee_rate` shannons per kilobyte, rounded up.
pub open spec fn min_fee_for(size: u64, min_fee_rate: u64) -> int {
    ((size * min_fee_rate) + 999) / 1000
}

/// The entry clears the pool's fee-rate floor and fits its size budget.
pub open spec fn fee_and_size_admitted(
    s: Seq<TxEntry>,
    entry: TxEntry,
    min_fee_rate: u64,
    max_size: int,
) -> bool {
    (entry.fee as int) >= min_fee_for(entry.size, min_fee_rate) && total_size(s) + entry.size
        <= max_size
}

/// Replacement-by-fee rule: a replacement must pay strictly more than
/// everything it evicts, and on top of that at least the evicted bytes
/// priced at the fee-rate floor.
pub fn check_rbf_fee(replacement_fee: u64, evicted_fee: u64, evicted_size: u64, min_fee_rate: u64) -> (r:
    bool)
    ensures
        r == (replacement_fee > evicted_fee && replacement_fee as int >= evicted_fee
            + min_fee_for(evicted_size, min_fee_rate)),
{
    if replacement_fee <= evicted_fee {
        return false;
    }
    proof {
        assert((evicted_size as int) * (min_fee_rate as int) <= u128::MAX - 999) by (nonlinear_arith)
            requires
                evicted_size <= u64::MAX && min_fee_rate <= u64::MAX,
        ;
    }
    let increment = ((evicted_size as u128) * (min_fee_rate as u128) + 999) / 1000;
    (replacement_fee as u128) >= (evicted_fee as u128) + increment
}

/// The pool service: the map plus the admission limits the node configures.
pub struct TxPool {
    map: PoolMap,
    max_tx_pool_size: u64,
    min_fee_rate: u64,
}

impl TxPool {
    /// The stored entries, for specifications.
    pub closed spec fn entries_view(self) -> Seq<TxEntry> {
        self.map.entries_view()
    }

    /// The pool's size budget, in bytes.
    pub closed spec fn max_size_view(self) -> int {
        self.max_tx_pool_size as int
    }

    /// The fee-rate floor, in shannons per kilobyte.
    pub closed spec fn min_fee_rate_view(self) -> int {
        self.min_fee_rate as int
    }

    /// The admission bound on `ancestors_count`.
    pub closed spec fn max_ancestors_view(self) -> int {
        self.map.max_ancestors_view()
    }

    /// Well-formed: the map is.
    pub closed spec fn wf(self) -> bool {
        self.map.wf()
    }

    /// An empty pool with the given limits.
    pub fn new(max_ancestors_count: usize, max_tx_pool_size: u64, min_fee_rate: u64) -> (r: TxPool)
        ensures
            r.wf(),
            r.entries_view() == Seq::<TxEntry>::empty(),
            r.max_size_view() == max_tx_pool_size as int,
            r.min_fee_rate_view() == min_fee_rate as int,
            r.max_ancestors_view() == max_ancestors_count as int,
    {
        TxPool {
            map: PoolMap::new(max_ancestors_count),
            max_tx_pool_size,
            min_fee_rate,
        }
    }

    /// Total own size of the pool, in bytes.
    pub fn pool_size(&self) -> (r: u64)
        requires
            self.wf(),
        ensures
            r == total_size(self.entries_view()),
    {
        let ghost s = self.map.entries_view();
        let n = self.map.len();
        let mut acc: u64 = 0;
        let mut j: usize = 0;
        proof {
            lemma_sum_bounds(s, |x: TxEntry| true, |x: TxEntry| x.size as int, s.len() as int);
        }
        while j < n
            invariant
                self.wf(),
                s == self.map.entries_view(),
                n == s.len(),
                0 <= j <= n,
                acc == sum_filtered(s, |x: TxEntry| true, |x: TxEntry| x.size as int, j as int),
            decreases n - j,
        {
            proof {
                lemma_sum_mono(
                    s,
                    |x: TxEntry| true,
                    |x: TxEntry| x.size as int,
                    j as int + 1,
                    n as int,
                );
                lemma_sum_bounds(s, |x: TxEntry| true, |x: TxEntry| x.size as int, n as int);
            }
            let e = match self.map.get_at(j) {
                Some(e) => e,
                None => {
                    proof {
                        assert(false);
                    }
                    return 0;
                }
            };
            acc = acc + e.size;
            j += 1;
        }
        acc
    }

    /// Admit a transaction: refuse it when its fee sits below the floor
    /// (`LowFeeRate`), when it does not fit the size budget (`PoolFull`), or
    /// for any of the map's own reasons; otherwise store it.
    pub fn submit_entry(&mut self, entry: TxEntry) -> (r: Result<(), Reject>)
        requires
            old(self).wf(),
            total_fee(old(self).entries_view()) + entry.fee <= u64::MAX,
            total_cycles(old(self).entries_view()) + entry.cycles <= u64::MAX,
            old(self).entries_view().len() + 2 <= u64::MAX,
        ensures
            final(self).wf(),
            final(self).max_size_view() == old(self).max_size_view(),
            final(self).min_fee_rate_view() == old(self).min_fee_rate_view(),
            final(self).max_ancestors_view() == old(self).max_ancestors_view(),
            match r {
                Err(Reject::LowFeeRate) => (entry.fee as int) < min_fee_for(
                    entry.size,
                    old(self).min_fee_rate_view() as u64,
                ) && final(self).entries_view() == old(self).entries_view(),
                Err(Reject::PoolFull) => (entry.fee as int) >= min_fee_for(
                    entry.size,
                    old(self).min_fee_rate_view() as u64,
                ) && total_size(old(self).entries_view()) + entry.size > old(self).max_size_view()
                    && final(self).entries_view() == old(self).entries_view(),
                Err(Reject::Duplicate) => fee_and_size_admitted(
                    old(self).entries_view(),
                    entry,
                    old(self).min_fee_rate_view() as u64,
                    old(self).max_size_view(),
                ) && has_id(old(self).entries_view(), id_of(entry)) && final(self).entries_view()
                    == old(self).entries_view(),
                Err(Reject::Conflict(op)) => fee_and_size_admitted(
                    old(self).entries_view(),
                    entry,
                    old(self).min_fee_rate_view() as u64,
                    old(self).max_size_view(),
                ) && !has_id(old(self).entries_view(), id_of(entry)) && conflict_at(
                    old(self).entries_view(),
                    entry,
                    op,
                ) && final(self).entries_view() == old(self).entries_view(),
                Err(Reject::TooManyAncestors) => fee_and_size_admitted(
                    old(self).entries_view(),
                    entry,
                    old(self).min_fee_rate_view() as u64,
                    old(self).max_size_view(),
                ) && !has_id(old(self).entries_view(), id_of(entry)) && !conflicts_with(
                    old(self).entries_view(),
                    entry,
                ) && with_aggregates(
                    old(self).entries_view().push(entry),
                    entry,
                ).ancestors_count as int > old(self).max_ancestors_view() && final(self).entries_view() == old(self).entries_view(),
                Ok(()) => final(self).entries_view() == refreshed(
                    old(self).entries_view().push(entry),
                ) && fee_and_size_admitted(
                    old(self).entries_view(),
                    entry,
                    old(self).min_fee_rate_view() as u64,
                    old(self).max_size_view(),
                ) && !has_id(old(self).entries_view(), id_of(entry)) && !conflicts_with(
                    old(self).entries_view(),
                    entry,
                ) && with_aggregates(
                    old(self).entries_view().push(entry),
                    entry,
                ).ancestors_count as int <= old(self).max_ancestors_view(),
                Err(_) => false,
            },
    {
        proof {
            assert((entry.size as int) * (self.min_fee_rate as int) <= u128::MAX - 999)
                by (nonlinear_arith)
                requires
                    entry.size <= u64::MAX && self.min_fee_rate <= u64::MAX,
            ;
        }
        let floor = ((entry.size as u128) * (self.min_fee_rate as u128) + 999) / 1000;
        if (entry.fee as u128) < floor {
            return Err(Reject::LowFeeRate);
        }
        let current = self.pool_size();
        if entry.size > self.max_tx_pool_size || current > self.max_tx_pool_size - entry.size {
            return Err(Reject::PoolFull);
        }
        self.map.add_proposed(entry)
    }

    /// Whether the pool holds an entry under `id`.
    pub fn contains_key(&self, id: &ProposalShortId) -> (r: bool)
        ensures
            r == has_id(self.entries_view(), *id),
    {
        self.map.contains_key(id)
    }

    /// Make room for `extra_size` more bytes: as long as the pool is over
    /// its size budget, evict the candidate below which nothing sorts —
    /// the minimum-fee-rate bundle — together with its whole descendant
    /// bundle. Returns everything evicted.
    pub fn evict_to_fit(&mut self, extra_size: u64) -> (removed: Vec<TxEntry>)
        requires
            old(self).wf(),
        ensures
            final(self).wf(),
            final(self).max_size_view() == old(self).max_size_view(),
            final(self).min_fee_rate_view() == old(self).min_fee_rate_view(),
            final(self).max_ancestors_view() == old(self).max_ancestors_view(),
            total_size(final(self).entries_view()) + extra_size <= final(self).max_size_view()
                || final(self).entries_view().len() == 0,
            forall|x: ProposalShortId|
                #[trigger] has_id(final(self).entries_view(), x) ==> has_id(
                    old(self).entries_view(),
                    x,
                ) && same_own(
                    entry_of(final(self).entries_view(), x),
                    entry_of(old(self).entries_view(), x),
                ),
            forall|k: int|
                0 <= k < removed@.len() ==> has_id(
                    old(self).entries_view(),
                    id_of(#[trigger] removed@[k]),
                ) && same_own(removed@[k], entry_of(old(self).entries_view(), id_of(removed@[k]))),
    {
        let ghost s0 = self.map.entries_view();
        let mut removed: Vec<TxEntry> = Vec::new();
        loop
            invariant
                self.map.wf(),
                s0 == old(self).map.entries_view(),
                self.max_tx_pool_size == old(self).max_tx_pool_size,
                self.min_fee_rate == old(self).min_fee_rate,
                self.map.max_ancestors_view() == old(self).map.max_ancestors_view(),
                forall|x: ProposalShortId|
                    #[trigger] has_id(self.map.entries_view(), x) ==> has_id(s0, x) && same_own(
                        entry_of(self.map.entries_view(), x),
                        entry_of(s0, x),
                    ),
                forall|k: int|
                    0 <= k < removed@.len() ==> has_id(s0, id_of(#[trigger] removed@[k]))
                        && same_own(removed@[k], entry_of(s0, id_of(removed@[k]))),
            decreases self.map.entries_view().len(),
        {
            let current = self.pool_size();
            if extra_size <= self.max_tx_pool_size && current <= self.max_tx_pool_size
                - extra_size {
                return removed;
            }
            match self.map.min_score_candidate() {
                None => {
                    return removed;
                }
                Some(cand) => {
                    let ghost pre = self.map.entries_view();
                    let ghost rpre = removed@;
                    let mut part = self.map.remove_entry_and_descendants(&cand);
                    let ghost pseq = part@;
                    removed.append(&mut part);
                    proof {
                        assert(removed@ == rpre + pseq);
                        assert forall|x: ProposalShortId|
                            #[trigger] has_id(self.map.entries_view(), x) implies has_id(s0, x)
                            && same_own(
                            entry_of(self.map.entries_view(), x),
                            entry_of(s0, x),
                        ) by {
                            assert(has_id(pre, x));
                            assert(same_own(entry_of(self.map.entries_view(), x), entry_of(
                                pre,
                                x,
                            )));
                        }
                        assert forall|k: int| 0 <= k < removed@.len() implies has_id(
                            s0,
                            id_of(#[trigger] removed@[k]),
                        ) && same_own(removed@[k], entry_of(s0, id_of(removed@[k]))) by {
                            if k < rpre.len() {
                                assert(removed@[k] == rpre[k]);
                            } else {
                                let kk = k - rpre.len();
                                assert(removed@[k] == pseq[kk]);
                                assert(has_id(pre, id_of(pseq[kk])));
                                assert(pseq[kk] == entry_of(pre, id_of(pseq[kk])));
                                assert(same_own(entry_of(pre, id_of(pseq[kk])), entry_of(
                                    s0,
                                    id_of(pseq[kk]),
                                )));
                            }
                        }
                    }
                }
            }
        }
    }

    /// Detach one entry; see `PoolMap::remove_entry`.
    pub fn remove_entry(&mut self, id: &ProposalShortId) -> (r: Option<TxEntry>)
        requires
            old(self).wf(),
        ensures
            final(self).wf(),
            final(self).max_size_view() == old(self).max_size_view(),
            final(self).min_fee_rate_view() == old(self).min_fee_rate_view(),
            final(self).max_ancestors_view() == old(self).max_ancestors_view(),
            match r {
                None => !has_id(old(self).entries_view(), *id) && final(self).entries_view()
                    == old(self).entries_view(),
                Some(e) => has_id(old(self).entries_view(), *id) && e == entry_of(
                    old(self).entries_view(),
                    *id,
                ) && final(self).entries_view() == refreshed(
                    old(self).entries_view().remove(idx_of(old(self).entries_view(), *id)),
                ),
            },
    {
        self.map.remove_entry(id)
    }
}

/// Pool round trip: admitting an entry and then detaching it returns the
/// pool to its prior state exactly — entries, dependency edges and every
/// aggregate. The sequence below is what `add_proposed` builds and what
/// `remove_entry` then takes apart (the new entry sits at the old length).
pub proof fn lemma_add_remove_idempotent(s: Seq<TxEntry>, e: TxEntry)
    requires
        pool_wf(s),
        !has_id(s, id_of(e)),
    ensures
        idx_of(refreshed(s.push(e)), id_of(e)) == s.len() as int,
        refreshed(refreshed(s.push(e)).remove(s.len() as int)) == s,
{
    let pushed = s.push(e);
    let t = refreshed(pushed);
    assert(unique_ids(pushed)) by {
        assert forall|a: int, b: int| 0 <= a < b < pushed.len() implies id_of(pushed[a]) != id_of(
            pushed[b],
        ) by {
            if b < s.len() {
                assert(pushed[a] == s[a] && pushed[b] == s[b]);
            } else {
                assert(pushed[a] == s[a] && pushed[b] == e);
                if id_of(s[a]) == id_of(e) {
                    assert(has_id(s, id_of(e)));
                }
            }
        }
    }
    assert(unique_ids(t)) by {
        assert forall|a: int, b: int| 0 <= a < b < t.len() implies id_of(t[a]) != id_of(t[b]) by {
            assert(t[a] == with_aggregates(pushed, pushed[a]));
            assert(t[b] == with_aggregates(pushed, pushed[b]));
            assert(id_of(pushed[a]) != id_of(pushed[b]));
        }
    }
    assert(id_of(t[s.len() as int]) == id_of(e)) by {
        assert(t[s.len() as int] == with_aggregates(pushed, e));
    }
    lemma_entry_of(t, s.len() as int);
    let y = t.remove(s.len() as int);
    assert forall|i: int| 0 <= i < y.len() implies same_own(#[trigger] y[i], s[i]) by {
        assert(y[i] == t[i]);
        assert(t[i] == with_aggregates(pushed, pushed[i]));
        assert(pushed[i] == s[i]);
    }
    assert(unique_ids(y)) by {
        assert forall|a: int, b: int| 0 <= a < b < y.len() implies id_of(y[a]) != id_of(y[b]) by {
            assert(same_own(y[a], s[a]) && same_own(y[b], s[b]));
            assert(id_of(s[a]) != id_of(s[b]));
        }
    }
    lemma_refreshed_congruence(y, s);
    lemma_refresh_identity(s);
}

} // verus!
