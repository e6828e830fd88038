use ckb_node::orphan_tx_pool::{OrphanTx, OrphanTxPool};
use ckb_node::recent_reject::RecentReject;
use ckb_node::tx_pool::{Reject, Transaction};
use ckb_node::types::{Byte32, OutPoint, ProposalShortId};
use ckb_node::verify_queue::{VerifyPriority, VerifyQueue};

fn hash(n: u64) -> Byte32 {
    Byte32 { w0: n, w1: 0, w2: 0, w3: 0 }
}

fn orphan(n: u64, missing: u64, expires_at_ms: u64) -> OrphanTx {
    OrphanTx {
        tx: Transaction {
            hash: hash(n),
            inputs: vec![OutPoint { tx_hash: hash(missing), index: 0 }],
            outputs_count: 1,
        },
        peer: 7,
        expires_at_ms,
    }
}

#[test]
fn recent_reject_caches_and_evicts() {
    let mut cache = RecentReject::new(2);
    cache.put(hash(1), Reject::LowFeeRate);
    cache.put(hash(2), Reject::Duplicate);
    assert_eq!(cache.get(&hash(1)), Some(Reject::LowFeeRate));
    assert_eq!(cache.get(&hash(2)), Some(Reject::Duplicate));
    // a third record pushes the oldest one out
    cache.put(hash(3), Reject::PoolFull);
    assert_eq!(cache.len(), 2);
    assert_eq!(cache.get(&hash(1)), None);
    assert_eq!(cache.get(&hash(3)), Some(Reject::PoolFull));
    // recording the same hash again keeps the first reason
    cache.put(hash(2), Reject::PoolFull);
    assert_eq!(cache.get(&hash(2)), Some(Reject::Duplicate));
}

#[test]
fn verify_queue_parks_and_resumes() {
    let mut queue = VerifyQueue::new(4);
    let a = ProposalShortId { hi: 1, lo: 0 };
    let b = ProposalShortId { hi: 2, lo: 0 };
    let c = ProposalShortId { hi: 3, lo: 0 };
    assert!(queue.push(a, VerifyPriority::Suspended));
    assert!(queue.push(b, VerifyPriority::Normal));
    assert!(queue.push(c, VerifyPriority::Suspended));
    // suspended entries wait: only the active one comes out
    assert_eq!(queue.pop(), Some(b));
    assert_eq!(queue.pop(), None);
    assert_eq!(queue.len(), 2);
    // resuming wakes them in their parked order
    queue.resume_suspended();
    assert_eq!(queue.pop(), Some(a));
    assert_eq!(queue.pop(), Some(c));
    assert_eq!(queue.pop(), None);
}

#[test]
fn verify_queue_orders_and_backpressures() {
    let mut queue = VerifyQueue::new(3);
    let a = ProposalShortId { hi: 1, lo: 0 };
    let b = ProposalShortId { hi: 2, lo: 0 };
    let c = ProposalShortId { hi: 3, lo: 0 };
    let d = ProposalShortId { hi: 4, lo: 0 };
    assert!(queue.push(a, VerifyPriority::Normal));
    assert!(queue.push(b, VerifyPriority::Normal));
    assert!(queue.push(c, VerifyPriority::HighPriority));
    // the queue is full: the caller is busy, nothing blocks
    assert!(!queue.push(d, VerifyPriority::Normal));
    assert_eq!(queue.len(), 3);
    // the urgent tier drains first, then the common one in order
    assert_eq!(queue.pop(), Some(c));
    assert_eq!(queue.pop(), Some(a));
    assert_eq!(queue.pop(), Some(b));
    assert_eq!(queue.pop(), None);
}

#[test]
fn orphan_txs_wait_by_missing_outpoint() {
    let mut pool = OrphanTxPool::new(8);
    pool.add_orphan_tx(orphan(1, 100, 50)).unwrap();
    pool.add_orphan_tx(orphan(2, 100, 50)).unwrap();
    pool.add_orphan_tx(orphan(3, 200, 50)).unwrap();
    assert_eq!(
        pool.add_orphan_tx(orphan(1, 100, 50)),
        Err(Reject::Duplicate)
    );
    assert_eq!(pool.len(), 3);
    // when tx 100 lands, its dependents are re-examined
    let dependents = pool.find_by_previous(&OutPoint { tx_hash: hash(100), index: 0 });
    assert_eq!(dependents.len(), 2);
    assert!(dependents.contains(&hash(1)));
    assert!(dependents.contains(&hash(2)));
    let taken = pool.remove_orphan_tx(&hash(1)).unwrap();
    assert_eq!(taken.tx.hash, hash(1));
    assert!(!pool.contains_key(&hash(1)));
}

#[test]
fn orphan_txs_expire() {
    let mut pool = OrphanTxPool::new(8);
    pool.add_orphan_tx(orphan(1, 100, 50)).unwrap();
    pool.add_orphan_tx(orphan(2, 100, 500)).unwrap();
    let expired = pool.clean_expired(100);
    assert_eq!(expired, vec![(hash(1), Reject::Expired)]);
    assert_eq!(pool.len(), 1);
    assert!(pool.contains_key(&hash(2)));
}

#[test]
fn orphan_tx_pool_is_capped() {
    let mut pool = OrphanTxPool::new(2);
    pool.add_orphan_tx(orphan(1, 100, 50)).unwrap();
    pool.add_orphan_tx(orphan(2, 100, 50)).unwrap();
    pool.add_orphan_tx(orphan(3, 100, 50)).unwrap();
    assert_eq!(pool.len(), 2);
    assert!(!pool.contains_key(&hash(1)));
    assert!(pool.contains_key(&hash(3)));
}
