//! Chain service: the single writer of the canonical chain. It gates
//! incoming blocks on their lifecycle status, stores them once their parent
//! is known, extends the best chain or reorganizes onto a heavier fork, and
//! publishes an immutable snapshot after every accepted tip change.

use crate::types::Byte32;
use vstd::prelude::*;

verus! {

/// Lifecycle status of a block hash. It only ever moves forward, except
/// that invalidation is terminal.
#[derive(Clone, Copy, Debug, PartialEq, Eq, Structural)]
pub enum BlockStatus {
    Unknown,
    HeaderValid,
    BlockReceived,
    BlockValid,
    BlockInvalid,
}

/// The stored summary of a block: its place in the tree and its cumulative
/// work.
#[derive(Clone, Copy, Debug, PartialEq, Eq, Structural)]
pub struct BlockRecord {
    pub hash: Byte32,
    pub parent_hash: Byte32,
    pub number: u64,
    pub epoch_number: u64,
    pub total_difficulty: u64,
}

/// What the reducer did with one input block.
#[derive(Clone, Debug, PartialEq, Eq)]
pub enum Outcome {
    /// The block was already stored, or its hash is marked invalid.
    AlreadyKnown,
    /// The block failed validation and its hash is now marked invalid.
    Invalid,
    /// The parent is not stored yet: the block belongs in the orphan pool.
    Pending,
    /// Stored on a side branch; the tip did not move.
    SideChain,
    /// The block extends the tip directly.
    Extended,
    /// A heavier branch replaced the tip: the detached hashes (old tip
    /// first, walking down) and the attached hashes (walking down from the
    /// new tip), both ending just above the fork point.
    Reorganized { detached: Vec<Byte32>, attached: Vec<Byte32> },
}

/// An immutable view published after every accepted tip change.
#[derive(Clone, Copy, Debug, PartialEq, Eq, Structural)]
pub struct Snapshot {
    pub tip_hash: Byte32,
    pub tip_number: u64,
    pub epoch_number: u64,
    pub total_difficulty: u64,
}

/// Holds the currently published snapshot; the chain service swaps it, and
/// readers take copies.
pub struct SnapshotMgr {
    current: Snapshot,
}

impl SnapshotMgr {
    /// The published snapshot, for specifications.
    pub closed spec fn current_view(self) -> Snapshot {
        self.current
    }

    /// Start with the given view.
    pub fn new(initial: Snapshot) -> (r: SnapshotMgr)
        ensures
            r.current_view() == initial,
    {
        SnapshotMgr { current: initial }
    }

    /// Read the current snapshot.
    pub fn load(&self) -> (r: Snapshot)
        ensures
            r == self.current_view(),
    {
        self.current
    }

    /// Publish a new snapshot.
    pub fn swap(&mut self, snapshot: Snapshot)
        ensures
            final(self).current_view() == snapshot,
    {
        self.current = snapshot;
    }
}

/// Whether some record of `s` has hash `h`.
pub open spec fn has_block(s: Seq<BlockRecord>, h: Byte32) -> bool {
    exists|i: int| 0 <= i < s.len() && s[i].hash == h
}

/// The record of `s` with hash `h` (hashes are unique).
pub open spec fn block_of(s: Seq<BlockRecord>, h: Byte32) -> BlockRecord {
    s[choose|i: int| 0 <= i < s.len() && s[i].hash == h]
}

/// No two records share a hash.
pub open spec fn unique_blocks(s: Seq<BlockRecord>) -> bool {
    forall|i: int, j: int| 0 <= i < j < s.len() ==> s[i].hash != s[j].hash
}

/// Every non-genesis record links to a stored parent one level down with
/// strictly less cumulative work.
pub open spec fn linked(s: Seq<BlockRecord>) -> bool {
    forall|i: int|
        0 <= i < s.len() && (#[trigger] s[i]).number > 0 ==> has_block(s, s[i].parent_hash)
            && block_of(s, s[i].parent_hash).number == s[i].number - 1 && block_of(
            s,
            s[i].parent_hash,
        ).total_difficulty < s[i].total_difficulty
}

/// The tie-broken order on candidate tips: heavier work wins, equal work
/// goes to the byte-wise lesser hash.
pub open spec fn tip_preferred(old_td: u64, old_hash: Byte32, new_td: u64, new_hash: Byte32) -> bool {
    new_td > old_td || (new_td == old_td && new_hash.lt_spec(old_hash))
}

/// The single-writer chain state: the stored block tree, the per-hash
/// statuses, and the current tip.
pub struct ChainState {
    blocks: Vec<BlockRecord>,
    invalid: Vec<Byte32>,
    tip: BlockRecord,
}

impl ChainState {
    /// The stored records, for specifications.
    pub closed spec fn blocks_view(self) -> Seq<BlockRecord> {
        self.blocks@
    }

    /// The hashes marked invalid, for specifications.
    pub closed spec fn invalid_view(self) -> Seq<Byte32> {
        self.invalid@
    }

    /// The current tip record, for specifications.
    pub closed spec fn tip_view(self) -> BlockRecord {
        self.tip
    }

    /// Well-formed: hashes unique, records linked, the tip stored, no
    /// stored record marked invalid, and exactly one genesis record (the
    /// first), so any two stored histories meet.
    pub open spec fn wf(self) -> bool {
        &&& unique_blocks(self.blocks_view())
        &&& linked(self.blocks_view())
        &&& has_block(self.blocks_view(), self.tip_view().hash)
        &&& block_of(self.blocks_view(), self.tip_view().hash) == self.tip_view()
        &&& (forall|h: Byte32|
            self.invalid_view().contains(h) ==> !#[trigger] has_block(self.blocks_view(), h))
        &&& self.blocks_view().len() >= 1
        &&& self.blocks_view()[0].number == 0
        &&& (forall|i: int|
            0 < i < self.blocks_view().len() ==> (#[trigger] self.blocks_view()[i]).number > 0)
    }

    /// A chain consisting of its genesis block.
    pub fn new(genesis: BlockRecord) -> (r: ChainState)
        requires
            genesis.number == 0,
        ensures
            r.wf(),
            r.tip_view() == genesis,
            r.blocks_view() == seq![genesis],
    {
        let mut blocks: Vec<BlockRecord> = Vec::new();
        blocks.push(genesis);
        let r = ChainState { blocks, invalid: Vec::new(), tip: genesis };
        proof {
            assert(r.blocks_view() =~= seq![genesis]);
            assert(r.blocks_view()[0] == genesis);
            assert(has_block(r.blocks_view(), genesis.hash));
            let i = choose|i: int|
                0 <= i < r.blocks_view().len() && r.blocks_view()[i].hash == genesis.hash;
            assert(i == 0);
        }
        r
    }

    /// The published view of the current tip.
    pub fn snapshot(&self) -> (r: Snapshot)
        ensures
            r.tip_hash == self.tip_view().hash,
            r.tip_number == self.tip_view().number,
            r.epoch_number == self.tip_view().epoch_number,
            r.total_difficulty == self.tip_view().total_difficulty,
    {
        Snapshot {
            tip_hash: self.tip.hash,
            tip_number: self.tip.number,
            epoch_number: self.tip.epoch_number,
            total_difficulty: self.tip.total_difficulty,
        }
    }

    fn find_block(&self, h: &Byte32) -> (r: Option<usize>)
        ensures
            match r {
                Some(i) => 0 <= i < self.blocks_view().len() && self.blocks_view()[i as int].hash
                    == h,
                None => !has_block(self.blocks_view(), *h),
            },
    {
        let mut i: usize = 0;
        while i < self.blocks.len()
            invariant
                0 <= i <= self.blocks@.len(),
                forall|j: int| 0 <= j < i ==> self.blocks@[j].hash != h,
            decreases self.blocks@.len() - i,
        {
            if self.blocks[i].hash == *h {
                return Some(i);
            }
            i += 1;
        }
        None
    }

    /// Whether the hash is stored.
    pub fn contains_block(&self, h: &Byte32) -> (r: bool)
        ensures
            r == has_block(self.blocks_view(), *h),
    {
        self.find_block(h).is_some()
    }

    /// The stored record under `h`, if any.
    pub fn get_block(&self, h: &Byte32) -> (r: Option<BlockRecord>)
        requires
            self.wf(),
        ensures
            match r {
                Some(b) => has_block(self.blocks_view(), *h) && b == block_of(
                    self.blocks_view(),
                    *h,
                ),
                None => !has_block(self.blocks_view(), *h),
            },
    {
        match self.find_block(h) {
            Some(i) => {
                proof {
                    lemma_block_of(self.blocks@, i as int);
                }
                Some(self.blocks[i])
            }
            None => None,
        }
    }

    fn invalid_contains(&self, h: &Byte32) -> (r: bool)
        ensures
            r == self.invalid_view().contains(*h),
    {
        let mut i: usize = 0;
        while i < self.invalid.len()
            invariant
                0 <= i <= self.invalid@.len(),
                forall|j: int| 0 <= j < i ==> self.invalid@[j] != h,
            decreases self.invalid@.len() - i,
        {
            if self.invalid[i] == *h {
                proof {
                    assert(self.invalid@[i as int] == h);
                }
                return true;
            }
            i += 1;
        }
        proof {
            assert(!self.invalid@.contains(*h));
        }
        false
    }

    /// The lifecycle status the chain currently assigns to `h`: terminal
    /// invalidation first, then stored-and-valid, else unknown.
    pub fn block_status(&self, h: &Byte32) -> (r: BlockStatus)
        ensures
            r == BlockStatus::BlockInvalid <==> self.invalid_view().contains(*h),
            !self.invalid_view().contains(*h) ==> (r == BlockStatus::BlockValid <==> has_block(
                self.blocks_view(),
                *h,
            )),
            !self.invalid_view().contains(*h) && !has_block(self.blocks_view(), *h) ==> r
                == BlockStatus::Unknown,
    {
        if self.invalid_contains(h) {
            BlockStatus::BlockInvalid
        } else if self.contains_block(h) {
            BlockStatus::BlockValid
        } else {
            BlockStatus::Unknown
        }
    }

    /// Walk from `from` down to (excluding) the block at height `target`,
    /// collecting hashes; used for both sides of a reorganization.
    #[verifier::rlimit(60)]
    #[verifier::spinoff_prover]
    fn walk_down(&self, from: BlockRecord, target_number: u64) -> (r: (Vec<Byte32>, BlockRecord))
        requires
            self.wf(),
            has_block(self.blocks_view(), from.hash),
            block_of(self.blocks_view(), from.hash) == from,
            target_number <= from.number,
        ensures
            has_block(self.blocks_view(), r.1.hash),
            block_of(self.blocks_view(), r.1.hash) == r.1,
            r.1.number == target_number,
            r.0@.len() == from.number - target_number,
            r.0@.len() > 0 ==> r.0@[0] == from.hash,
            r.0@.len() == 0 ==> r.1 == from,
            forall|k: int| 0 <= k < r.0@.len() ==> has_block(self.blocks_view(), #[trigger] r.0@[k]),
            forall|k: int|
                0 <= k < r.0@.len() - 1 ==> block_of(
                    self.blocks_view(),
                    #[trigger] r.0@[k],
                ).parent_hash == r.0@[k + 1],
            r.0@.len() > 0 ==> block_of(self.blocks_view(), r.0@.last()).parent_hash == r.1.hash,
            r.1.total_difficulty <= from.total_difficulty,
            r.0@.len() > 0 ==> r.1.total_difficulty < from.total_difficulty,
    {
        let mut out: Vec<Byte32> = Vec::new();
        let mut cur = from;
        while cur.number > target_number
            invariant
                self.wf(),
                has_block(self.blocks_view(), cur.hash),
                block_of(self.blocks_view(), cur.hash) == cur,
                target_number <= cur.number,
                out@.len() == from.number - cur.number,
                out@.len() > 0 ==> out@[0] == from.hash,
                out@.len() == 0 ==> cur == from,
                forall|k: int|
                    0 <= k < out@.len() ==> has_block(self.blocks_view(), #[trigger] out@[k]),
                forall|k: int|
                    0 <= k < out@.len() - 1 ==> block_of(
                        self.blocks_view(),
                        #[trigger] out@[k],
                    ).parent_hash == out@[k + 1],
                out@.len() > 0 ==> block_of(self.blocks_view(), out@.last()).parent_hash
                    == cur.hash,
                cur.total_difficulty <= from.total_difficulty,
                out@.len() > 0 ==> cur.total_difficulty < from.total_difficulty,
            decreases cur.number,
        {
            let ghost opre = out@;
            out.push(cur.hash);
            let parent = match self.get_block(&cur.parent_hash) {
                Some(p) => p,
                None => {
                    proof {
                        let i = choose|i: int|
                            0 <= i < self.blocks_view().len() && self.blocks_view()[i].hash
                                == cur.hash;
                        assert(self.blocks_view()[i].number > 0);
                        assert(has_block(self.blocks_view(), self.blocks_view()[i].parent_hash));
                        assert(false);
                    }
                    cur
                }
            };
            proof {
                let i = choose|i: int|
                    0 <= i < self.blocks_view().len() && self.blocks_view()[i].hash == cur.hash;
                assert(self.blocks_view()[i] == cur);
                assert(block_of(self.blocks_view(), cur.parent_hash).number == cur.number - 1);
                assert(block_of(self.blocks_view(), cur.parent_hash).total_difficulty
                    < cur.total_difficulty);
                assert(out@[out@.len() - 1] == cur.hash);
                assert forall|k: int| 0 <= k < out@.len() - 1 implies block_of(
                    self.blocks_view(),
                    #[trigger] out@[k],
                ).parent_hash == out@[k + 1] by {
                    if k < opre.len() - 1 {
                        assert(out@[k] == opre[k] && out@[k + 1] == opre[k + 1]);
                    } else {
                        assert(out@[k] == opre.last() && out@[k + 1] == cur.hash);
                    }
                }
            }
            cur = parent;
        }
        (out, cur)
    }

    /// Find the fork record below a preferred candidate `b` and the current
    /// tip `a`, with the two hash paths down to it: the detach path from
    /// `a`, the attach path from `b`, both walking parent links and ending
    /// just above the fork. Both histories reach the unique genesis, so the
    /// fork exists; the attach path is never empty, as a preferred
    /// candidate cannot sit inside the tip's own history.
    #[verifier::rlimit(60)]
    #[verifier::spinoff_prover]
    fn fork_paths(&self, a: BlockRecord, b: BlockRecord) -> (r: (Vec<Byte32>, Vec<Byte32>, BlockRecord))
        requires
            self.wf(),
            has_block(self.blocks_view(), a.hash),
            block_of(self.blocks_view(), a.hash) == a,
            has_block(self.blocks_view(), b.hash),
            block_of(self.blocks_view(), b.hash) == b,
            a.hash != b.hash,
            tip_preferred(a.total_difficulty, a.hash, b.total_difficulty, b.hash),
        ensures
            has_block(self.blocks_view(), r.2.hash),
            block_of(self.blocks_view(), r.2.hash) == r.2,
            r.0@.len() == a.number - r.2.number,
            r.1@.len() == b.number - r.2.number,
            r.0@.len() > 0 ==> r.0@[0] == a.hash,
            r.0@.len() == 0 ==> r.2 == a,
            r.1@.len() >= 1,
            r.1@[0] == b.hash,
            forall|k: int| 0 <= k < r.0@.len() ==> has_block(self.blocks_view(), #[trigger] r.0@[k]),
            forall|k: int| 0 <= k < r.1@.len() ==> has_block(self.blocks_view(), #[trigger] r.1@[k]),
            forall|k: int|
                0 <= k < r.0@.len() - 1 ==> block_of(
                    self.blocks_view(),
                    #[trigger] r.0@[k],
                ).parent_hash == r.0@[k + 1],
            forall|k: int|
                0 <= k < r.1@.len() - 1 ==> block_of(
                    self.blocks_view(),
                    #[trigger] r.1@[k],
                ).parent_hash == r.1@[k + 1],
            r.0@.len() > 0 ==> block_of(self.blocks_view(), r.0@.last()).parent_hash == r.2.hash,
            block_of(self.blocks_view(), r.1@.last()).parent_hash == r.2.hash,
    {
        let common = if a.number <= b.number {
            a.number
        } else {
            b.number
        };
        let (mut da, mut ca) = self.walk_down(a, common);
        let (mut db, mut cb) = self.walk_down(b, common);
        while !(ca.hash == cb.hash)
            invariant
                self.wf(),
                has_block(self.blocks_view(), ca.hash),
                block_of(self.blocks_view(), ca.hash) == ca,
                has_block(self.blocks_view(), cb.hash),
                block_of(self.blocks_view(), cb.hash) == cb,
                ca.number == cb.number,
                da@.len() == a.number - ca.number,
                db@.len() == b.number - cb.number,
                da@.len() > 0 ==> da@[0] == a.hash,
                db@.len() > 0 ==> db@[0] == b.hash,
                da@.len() == 0 ==> ca == a,
                db@.len() == 0 ==> cb == b,
                forall|k: int|
                    0 <= k < da@.len() ==> has_block(self.blocks_view(), #[trigger] da@[k]),
                forall|k: int|
                    0 <= k < db@.len() ==> has_block(self.blocks_view(), #[trigger] db@[k]),
                forall|k: int|
                    0 <= k < da@.len() - 1 ==> block_of(
                        self.blocks_view(),
                        #[trigger] da@[k],
                    ).parent_hash == da@[k + 1],
                forall|k: int|
                    0 <= k < db@.len() - 1 ==> block_of(
                        self.blocks_view(),
                        #[trigger] db@[k],
                    ).parent_hash == db@[k + 1],
                da@.len() > 0 ==> block_of(self.blocks_view(), da@.last()).parent_hash == ca.hash,
                db@.len() > 0 ==> block_of(self.blocks_view(), db@.last()).parent_hash == cb.hash,
                ca.total_difficulty <= a.total_difficulty,
                da@.len() > 0 ==> ca.total_difficulty < a.total_difficulty,
                cb.total_difficulty <= b.total_difficulty,
                db@.len() > 0 ==> cb.total_difficulty < b.total_difficulty,
            decreases ca.number,
        {
            if ca.number == 0 {
                proof {
                    // both cursors sit on the unique genesis record
                    let i = choose|i: int|
                        0 <= i < self.blocks_view().len() && self.blocks_view()[i].hash == ca.hash;
                    assert(self.blocks_view()[i] == ca);
                    assert(i == 0);
                    let j = choose|j: int|
                        0 <= j < self.blocks_view().len() && self.blocks_view()[j].hash == cb.hash;
                    assert(self.blocks_view()[j] == cb);
                    assert(j == 0);
                    assert(false);
                }
                return (da, db, ca);
            }
            let ghost dapre = da@;
            let ghost dbpre = db@;
            da.push(ca.hash);
            db.push(cb.hash);
            let pa = match self.get_block(&ca.parent_hash) {
                Some(p) => p,
                None => {
                    proof {
                        let i = choose|i: int|
                            0 <= i < self.blocks_view().len() && self.blocks_view()[i].hash
                                == ca.hash;
                        assert(self.blocks_view()[i].number > 0);
                        assert(false);
                    }
                    ca
                }
            };
            let pb = match self.get_block(&cb.parent_hash) {
                Some(p) => p,
                None => {
                    proof {
                        let i = choose|i: int|
                            0 <= i < self.blocks_view().len() && self.blocks_view()[i].hash
                                == cb.hash;
                        assert(self.blocks_view()[i].number > 0);
                        assert(false);
                    }
                    cb
                }
            };
            proof {
                let i = choose|i: int|
                    0 <= i < self.blocks_view().len() && self.blocks_view()[i].hash == ca.hash;
                assert(self.blocks_view()[i] == ca);
                let j = choose|j: int|
                    0 <= j < self.blocks_view().len() && self.blocks_view()[j].hash == cb.hash;
                assert(self.blocks_view()[j] == cb);
                assert(da@[da@.len() - 1] == ca.hash);
                assert(db@[db@.len() - 1] == cb.hash);
                assert forall|k: int| 0 <= k < da@.len() - 1 implies block_of(
                    self.blocks_view(),
                    #[trigger] da@[k],
                ).parent_hash == da@[k + 1] by {
                    if k < dapre.len() - 1 {
                        assert(da@[k] == dapre[k] && da@[k + 1] == dapre[k + 1]);
                    } else if dapre.len() > 0 {
                        assert(da@[k] == dapre.last() && da@[k + 1] == ca.hash);
                    }
                }
                assert forall|k: int| 0 <= k < db@.len() - 1 implies block_of(
                    self.blocks_view(),
                    #[trigger] db@[k],
                ).parent_hash == db@[k + 1] by {
                    if k < dbpre.len() - 1 {
                        assert(db@[k] == dbpre[k] && db@[k + 1] == dbpre[k + 1]);
                    } else if dbpre.len() > 0 {
                        assert(db@[k] == dbpre.last() && db@[k + 1] == cb.hash);
                    }
                }
            }
            ca = pa;
            cb = pb;
        }
        proof {
            // a preferred candidate never sits inside the tip's history, so
            // something was attached
            if db@.len() == 0 {
                assert(cb == b);
                assert(ca == b);
                if da@.len() == 0 {
                    assert(ca == a);
                    assert(a.hash == b.hash);
                } else {
                    assert(b.total_difficulty < a.total_difficulty);
                }
                assert(false);
            }
        }
        (da, db, ca)
    }

    /// Feed one block to the reducer: gate on the hash's status, store the
    /// block once its parent is known, and decide the tip transition. The
    /// tip moves only to a strictly preferred candidate (heavier total
    /// difficulty, or equal difficulty and a byte-wise lesser hash, with a
    /// direct extension always heavier by the link invariant), and
    /// otherwise stays.
    #[verifier::rlimit(60)]
    #[verifier::spinoff_prover]
    pub fn process_block(&mut self, block: BlockRecord, verified: bool) -> (r: Outcome)
        requires
            old(self).wf(),
            block.number > 0,
            has_block(old(self).blocks_view(), block.parent_hash) ==> block_of(
                old(self).blocks_view(),
                block.parent_hash,
            ).number + 1 == block.number && block_of(
                old(self).blocks_view(),
                block.parent_hash,
            ).total_difficulty < block.total_difficulty,
        ensures
            final(self).wf(),
            // the tip only ever improves (prefix-consistent snapshots)
            final(self).tip_view() == old(self).tip_view() || tip_preferred(
                old(self).tip_view().total_difficulty,
                old(self).tip_view().hash,
                final(self).tip_view().total_difficulty,
                final(self).tip_view().hash,
            ),
            // storage rule: stored blocks persist; exactly the accepted
            // block is appended, and only a failed one is marked invalid
            (r is AlreadyKnown || r is Pending) ==> final(self).blocks_view() == old(
                self,
            ).blocks_view() && final(self).invalid_view() == old(self).invalid_view(),
            r is Invalid ==> final(self).blocks_view() == old(self).blocks_view() && final(self).invalid_view() == old(self).invalid_view().push(block.hash),
            (r is SideChain || r is Extended || r is Reorganized) ==> final(self).blocks_view()
                == old(self).blocks_view().push(block) && final(self).invalid_view() == old(
                self,
            ).invalid_view(),
            // decision rule: the input alone fixes the outcome
            (r is AlreadyKnown) <==> (has_block(old(self).blocks_view(), block.hash) || old(
                self,
            ).invalid_view().contains(block.hash)),
            !(r is AlreadyKnown) ==> ((r is Invalid) <==> !verified),
            !(r is AlreadyKnown) && verified ==> ((r is Pending) <==> !has_block(
                old(self).blocks_view(),
                block.parent_hash,
            )),
            !(r is AlreadyKnown) && verified && has_block(
                old(self).blocks_view(),
                block.parent_hash,
            ) ==> {
                &&& ((r is Extended) <==> block.parent_hash == old(self).tip_view().hash)
                &&& (block.parent_hash != old(self).tip_view().hash ==> ((r is Reorganized)
                    <==> tip_preferred(
                    old(self).tip_view().total_difficulty,
                    old(self).tip_view().hash,
                    block.total_difficulty,
                    block.hash,
                )))
            },
            match r {
                Outcome::AlreadyKnown => final(self).tip_view() == old(self).tip_view() && (
                has_block(old(self).blocks_view(), block.hash) || old(
                    self,
                ).invalid_view().contains(block.hash)),
                Outcome::Invalid => !verified && final(self).tip_view() == old(self).tip_view()
                    && final(self).invalid_view().contains(block.hash),
                Outcome::Pending => !has_block(old(self).blocks_view(), block.parent_hash)
                    && final(self).tip_view() == old(self).tip_view(),
                Outcome::SideChain => final(self).tip_view() == old(self).tip_view() && has_block(
                    final(self).blocks_view(),
                    block.hash,
                ),
                Outcome::Extended => final(self).tip_view() == block && block.parent_hash == old(
                    self,
                ).tip_view().hash && has_block(final(self).blocks_view(), block.hash),
                Outcome::Reorganized { detached, attached } => final(self).tip_view() == block
                    && tip_preferred(
                    old(self).tip_view().total_difficulty,
                    old(self).tip_view().hash,
                    block.total_difficulty,
                    block.hash,
                ) && has_block(final(self).blocks_view(), block.hash) && (detached@.len() > 0
                    ==> detached@[0] == old(self).tip_view().hash) && attached@.len() >= 1
                    && attached@[0] == block.hash && (forall|k: int|
                    0 <= k < detached@.len() ==> has_block(
                        final(self).blocks_view(),
                        #[trigger] detached@[k],
                    )) && (forall|k: int|
                    0 <= k < attached@.len() ==> has_block(
                        final(self).blocks_view(),
                        #[trigger] attached@[k],
                    )) && (forall|k: int|
                    0 <= k < detached@.len() - 1 ==> block_of(
                        final(self).blocks_view(),
                        #[trigger] detached@[k],
                    ).parent_hash == detached@[k + 1]) && (forall|k: int|
                    0 <= k < attached@.len() - 1 ==> block_of(
                        final(self).blocks_view(),
                        #[trigger] attached@[k],
                    ).parent_hash == attached@[k + 1]) && (exists|fork: BlockRecord|
                    #![trigger block_of(final(self).blocks_view(), fork.hash)]
                    has_block(final(self).blocks_view(), fork.hash) && block_of(
                        final(self).blocks_view(),
                        fork.hash,
                    ) == fork && detached@.len() == old(self).tip_view().number - fork.number
                        && attached@.len() == block.number - fork.number && block_of(
                        final(self).blocks_view(),
                        attached@.last(),
                    ).parent_hash == fork.hash && (detached@.len() > 0 ==> block_of(
                        final(self).blocks_view(),
                        detached@.last(),
                    ).parent_hash == fork.hash) && (detached@.len() == 0 ==> fork == old(
                        self,
                    ).tip_view())),
            },
    {
        let ghost b0 = self.blocks@;
        // gate on the lifecycle status
        if self.invalid_contains(&block.hash) {
            return Outcome::AlreadyKnown;
        }
        if self.contains_block(&block.hash) {
            return Outcome::AlreadyKnown;
        }
        if !verified {
            self.invalid.push(block.hash);
            proof {
                assert forall|h: Byte32| self.invalid@.contains(h) implies !#[trigger] has_block(
                    self.blocks@,
                    h,
                ) by {
                    if h != block.hash {
                        assert(self.invalid@.drop_last().contains(h)) by {
                            let j = choose|j: int|
                                0 <= j < self.invalid@.len() && self.invalid@[j] == h;
                            assert(j < self.invalid@.len() - 1);
                            assert(self.invalid@.drop_last()[j] == h);
                        }
                        assert(old(self).invalid@.contains(h));
                    }
                }
                assert(self.invalid@[self.invalid@.len() - 1] == block.hash);
                assert(self.invalid@.contains(block.hash));
            }
            return Outcome::Invalid;
        }
        // parent resolution
        if !self.contains_block(&block.parent_hash) {
            return Outcome::Pending;
        }
        // store the block
        self.blocks.push(block);
        proof {
            let b1 = self.blocks@;
            assert(b1[b0.len() as int] == block);
            assert(has_block(b1, block.hash));
            assert(unique_blocks(b1)) by {
                assert forall|i: int, j: int| 0 <= i < j < b1.len() implies b1[i].hash
                    != b1[j].hash by {
                    if j < b0.len() {
                        assert(b1[i] == b0[i] && b1[j] == b0[j]);
                    } else {
                        assert(b1[i] == b0[i] && b1[j] == block);
                        if b0[i].hash == block.hash {
                            assert(has_block(b0, block.hash));
                        }
                    }
                }
            }
            assert forall|h: Byte32| has_block(b0, h) implies has_block(b1, h) && block_of(b1, h)
                == block_of(b0, h) by {
                let i = choose|i: int| 0 <= i < b0.len() && b0[i].hash == h;
                assert(b1[i].hash == h);
                lemma_block_of(b0, i);
                lemma_block_of(b1, i);
            }
            lemma_block_of(b1, b0.len() as int);
            assert(linked(b1)) by {
                assert forall|i: int|
                    0 <= i < b1.len() && (#[trigger] b1[i]).number > 0 implies has_block(
                    b1,
                    b1[i].parent_hash,
                ) && block_of(b1, b1[i].parent_hash).number == b1[i].number - 1 && block_of(
                    b1,
                    b1[i].parent_hash,
                ).total_difficulty < b1[i].total_difficulty by {
                    if i < b0.len() {
                        assert(b1[i] == b0[i]);
                        assert(has_block(b0, b0[i].parent_hash));
                    } else {
                        assert(b1[i] == block);
                        assert(has_block(b0, block.parent_hash));
                    }
                }
            }
            assert forall|h: Byte32| self.invalid@.contains(h) implies !#[trigger] has_block(
                b1,
                h,
            ) by {
                if has_block(b1, h) {
                    let i = choose|i: int| 0 <= i < b1.len() && b1[i].hash == h;
                    if i < b0.len() {
                        assert(has_block(b0, h));
                    } else {
                        assert(h == block.hash);
                    }
                }
            }
        }
        // tip decision
        let old_tip = self.tip;
        if block.parent_hash == old_tip.hash {
            self.tip = block;
            proof {
                assert(block_of(b0, block.parent_hash) == old_tip);
                assert(old_tip.total_difficulty < block.total_difficulty);
            }
            return Outcome::Extended;
        }
        let preferred = block.total_difficulty > old_tip.total_difficulty || (
        block.total_difficulty == old_tip.total_difficulty && block.hash.lt(&old_tip.hash));
        if !preferred {
            return Outcome::SideChain;
        }
        proof {
            assert(has_block(self.blocks@, old_tip.hash));
            assert(block_of(self.blocks@, old_tip.hash) == old_tip);
        }
        let (detached, attached, fork) = self.fork_paths(old_tip, block);
        self.tip = block;
        proof {
            assert(has_block(self.blocks_view(), fork.hash) && block_of(
                self.blocks_view(),
                fork.hash,
            ) == fork);
        }
        Outcome::Reorganized { detached, attached }
    }
}

proof fn lemma_block_of(s: Seq<BlockRecord>, j: int)
    requires
        unique_blocks(s),
        0 <= j < s.len(),
    ensures
        block_of(s, s[j].hash) == s[j],
{
    let h = s[j].hash;
    let i = choose|i: int| 0 <= i < s.len() && s[i].hash == h;
    assert(0 <= i < s.len() && s[i].hash == h);
}

/// Tip monotonicity is transitive: a chain of published snapshots each
/// preferred over the one before stays preferred over the first.
pub proof fn lemma_tip_order_transitive(
    td1: u64,
    h1: Byte32,
    td2: u64,
    h2: Byte32,
    td3: u64,
    h3: Byte32,
)
    requires
        tip_preferred(td1, h1, td2, h2),
        tip_preferred(td2, h2, td3, h3),
    ensures
        tip_preferred(td1, h1, td3, h3),
{
}

} // verus!
