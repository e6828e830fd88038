use ckb_node::chain::{BlockRecord, BlockStatus, ChainState, Outcome, Snapshot, SnapshotMgr};
use ckb_node::tx_pool::{PoolMap, Transaction, TxEntry};
use ckb_node::types::{Byte32, OutPoint};

fn hash(n: u64) -> Byte32 {
    Byte32 { w0: n, w1: 0, w2: 0, w3: 0 }
}

fn block(h: u64, parent: u64, number: u64, td: u64) -> BlockRecord {
    BlockRecord {
        hash: hash(h),
        parent_hash: hash(parent),
        number,
        epoch_number: 0,
        total_difficulty: td,
    }
}

#[test]
fn chain_extends_on_tip_child() {
    let genesis = block(0, 999, 0, 0);
    let mut chain = ChainState::new(genesis);
    let a1 = block(1, 0, 1, 1);
    assert_eq!(chain.process_block(a1, true), Outcome::Extended);
    assert_eq!(chain.snapshot().tip_hash, hash(1));
    assert_eq!(chain.snapshot().tip_number, 1);
}

#[test]
fn chain_gates_on_status() {
    let genesis = block(0, 999, 0, 0);
    let mut chain = ChainState::new(genesis);
    let a1 = block(1, 0, 1, 1);
    assert_eq!(chain.process_block(a1, false), Outcome::Invalid);
    // once invalid, always refused
    assert_eq!(chain.process_block(a1, true), Outcome::AlreadyKnown);
    // an orphan block waits for its parent
    let b2 = block(2, 77, 1, 1);
    assert_eq!(chain.process_block(b2, true), Outcome::Pending);
    assert_eq!(chain.snapshot().tip_hash, hash(0));
}

#[test]
fn chain_reorganizes_to_heavier_fork() {
    // current tip A1 -> A2 -> A3; deliver B1 -> B4 forking at genesis with
    // greater total difficulty
    let genesis = block(0, 999, 0, 0);
    let mut chain = ChainState::new(genesis);
    let mut mgr = SnapshotMgr::new(Snapshot {
        tip_hash: hash(0),
        tip_number: 0,
        epoch_number: 0,
        total_difficulty: 0,
    });
    let mut pool = PoolMap::new(125);
    // the A branch carries one unique transaction in A2
    let a_tx = TxEntry::dummy_resolve(
        Transaction {
            hash: hash(1000),
            inputs: vec![OutPoint { tx_hash: hash(900), index: 0 }],
            outputs_count: 1,
        },
        10,
        10,
        10,
    );
    let a_tx_id = a_tx.proposal_short_id();
    for (i, b) in [block(1, 0, 1, 10), block(2, 1, 2, 20), block(3, 2, 3, 30)]
        .into_iter()
        .enumerate()
    {
        assert_eq!(chain.process_block(b, true), Outcome::Extended);
        assert_eq!(chain.snapshot().tip_number, (i + 1) as u64);
        mgr.swap(chain.snapshot());
    }
    assert_eq!(mgr.load().tip_hash, hash(3));

    // the B branch is delivered in order; it overtakes at B4
    assert_eq!(chain.process_block(block(11, 0, 1, 9), true), Outcome::SideChain);
    assert_eq!(chain.process_block(block(12, 11, 2, 18), true), Outcome::SideChain);
    assert_eq!(chain.process_block(block(13, 12, 3, 27), true), Outcome::SideChain);
    let outcome = chain.process_block(block(14, 13, 4, 36), true);
    match outcome {
        Outcome::Reorganized { detached, attached } => {
            assert_eq!(detached, vec![hash(3), hash(2), hash(1)]);
            assert_eq!(attached, vec![hash(14), hash(13), hash(12), hash(11)]);
            // the A branch's unique transactions reappear in the pool,
            // subject to the pool's own rules
            for d in detached.iter() {
                if *d == hash(2) {
                    let e = TxEntry::dummy_resolve(
                        Transaction {
                            hash: hash(1000),
                            inputs: vec![OutPoint { tx_hash: hash(900), index: 0 }],
                            outputs_count: 1,
                        },
                        10,
                        10,
                        10,
                    );
                    pool.add_proposed(e).unwrap();
                }
            }
        }
        other => panic!("expected a reorganization, got {:?}", other),
    }
    mgr.swap(chain.snapshot());
    assert_eq!(mgr.load().tip_hash, hash(14));
    assert_eq!(mgr.load().total_difficulty, 36);
    // the old branch is still stored as side blocks
    assert!(chain.get_block(&hash(2)).is_some());
    assert!(chain.get_block(&hash(3)).is_some());
    assert!(pool.contains_key(&a_tx_id));
}

#[test]
fn chain_tip_difficulty_is_monotone() {
    let genesis = block(0, 999, 0, 0);
    let mut chain = ChainState::new(genesis);
    let inputs = [
        (block(1, 0, 1, 5), true),
        (block(2, 1, 2, 8), true),
        (block(21, 0, 1, 4), true),
        (block(22, 21, 2, 7), true),
        (block(23, 22, 3, 12), true),
        (block(31, 5, 1, 100), true),
        (block(4, 2, 3, 9), false),
    ];
    let mut last_td = chain.snapshot().total_difficulty;
    let mut last_hash = chain.snapshot().tip_hash;
    for (b, ok) in inputs.into_iter() {
        chain.process_block(b, ok);
        let snap = chain.snapshot();
        assert!(
            snap.total_difficulty > last_td
                || (snap.total_difficulty == last_td && snap.tip_hash == last_hash)
                || (snap.total_difficulty == last_td && snap.tip_hash.lt(&last_hash))
        );
        last_td = snap.total_difficulty;
        last_hash = snap.tip_hash;
    }
}

#[test]
fn chain_tie_break_prefers_lesser_hash() {
    let genesis = block(0, 999, 0, 0);
    let mut chain = ChainState::new(genesis);
    assert_eq!(chain.process_block(block(9, 0, 1, 10), true), Outcome::Extended);
    // same difficulty, byte-wise lesser hash wins
    let outcome = chain.process_block(block(5, 0, 1, 10), true);
    assert!(matches!(outcome, Outcome::Reorganized { .. }));
    assert_eq!(chain.snapshot().tip_hash, hash(5));
    // same difficulty, greater hash stays aside
    assert_eq!(chain.process_block(block(7, 0, 1, 10), true), Outcome::SideChain);
    assert_eq!(chain.snapshot().tip_hash, hash(5));
}

#[test]
fn chain_block_status_classifies() {
    let genesis = block(0, 999, 0, 0);
    let mut chain = ChainState::new(genesis);
    assert_eq!(chain.block_status(&hash(0)), BlockStatus::BlockValid);
    assert_eq!(chain.block_status(&hash(1)), BlockStatus::Unknown);
    assert_eq!(chain.process_block(block(1, 0, 1, 1), false), Outcome::Invalid);
    assert_eq!(chain.block_status(&hash(1)), BlockStatus::BlockInvalid);
    assert_eq!(chain.process_block(block(2, 0, 1, 1), true), Outcome::Extended);
    assert_eq!(chain.block_status(&hash(2)), BlockStatus::BlockValid);
}

#[test]
fn chain_reorg_paths_link_to_the_fork() {
    // tip A1..A2; the fork B1..B3 splits at A1
    let genesis = block(0, 999, 0, 0);
    let mut chain = ChainState::new(genesis);
    assert_eq!(chain.process_block(block(1, 0, 1, 10), true), Outcome::Extended);
    assert_eq!(chain.process_block(block(2, 1, 2, 20), true), Outcome::Extended);
    assert_eq!(chain.process_block(block(11, 1, 2, 15), true), Outcome::SideChain);
    let outcome = chain.process_block(block(12, 11, 3, 30), true);
    match outcome {
        Outcome::Reorganized { detached, attached } => {
            // walking down from each side, both paths stop just above A1
            assert_eq!(detached, vec![hash(2)]);
            assert_eq!(attached, vec![hash(12), hash(11)]);
            assert_eq!(chain.get_block(&hash(11)).unwrap().parent_hash, hash(1));
            assert_eq!(chain.get_block(&hash(2)).unwrap().parent_hash, hash(1));
        }
        other => panic!("expected a reorganization, got {:?}", other),
    }
}
