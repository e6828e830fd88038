use ckb_node::orphan_pool::{LonelyBlock, OrphanBlockPool};
use ckb_node::types::Byte32;

fn hash(n: u64) -> Byte32 {
    Byte32 { w0: n, w1: 0, w2: 0, w3: 0 }
}

fn lonely(h: u64, parent: u64, epoch: u64) -> LonelyBlock {
    LonelyBlock {
        hash: hash(h),
        parent_hash: hash(parent),
        epoch_number: epoch,
        peer_id: 0,
        receive_time: 0,
    }
}

#[test]
fn orphan_flush_returns_whole_subtree_in_order() {
    // hash=B parent=A, hash=C parent=B; A is absent
    let mut pool = OrphanBlockPool::with_capacity(16);
    let b = lonely(2, 1, 0);
    let c = lonely(3, 2, 0);
    pool.insert(b);
    pool.insert(c);
    assert_eq!(pool.len(), 2);
    let leaders = pool.clone_leaders();
    assert_eq!(leaders, vec![hash(1)]);
    assert_eq!(pool.leaders_len(), 1);

    let removed = pool.remove_blocks_by_parent(&hash(1));
    assert_eq!(removed.len(), 2);
    assert_eq!(removed[0].hash, hash(2));
    assert_eq!(removed[1].hash, hash(3));
    assert_eq!(pool.len(), 0);
    assert_eq!(pool.leaders_len(), 0);
}

#[test]
fn orphan_flush_of_unknown_parent_is_empty() {
    let mut pool = OrphanBlockPool::with_capacity(16);
    pool.insert(lonely(2, 1, 0));
    let removed = pool.remove_blocks_by_parent(&hash(9));
    assert!(removed.is_empty());
    assert_eq!(pool.len(), 1);
}

#[test]
fn orphan_get_block_finds_entries() {
    let mut pool = OrphanBlockPool::with_capacity(16);
    let b = lonely(2, 1, 7);
    pool.insert(b);
    let got = pool.get_block(&hash(2)).unwrap();
    assert_eq!(got.epoch_number, 7);
    assert_eq!(got.parent_hash, hash(1));
    assert!(pool.get_block(&hash(3)).is_none());
}

#[test]
fn orphan_leaders_shift_when_parent_arrives() {
    // B under A, then A itself arrives as an orphan under Z:
    // A stops being a leader and Z becomes one
    let mut pool = OrphanBlockPool::with_capacity(16);
    pool.insert(lonely(2, 1, 0));
    assert_eq!(pool.clone_leaders(), vec![hash(1)]);
    pool.insert(lonely(1, 100, 0));
    let leaders = pool.clone_leaders();
    assert_eq!(leaders.len(), 1);
    assert_eq!(leaders[0], hash(100));
    // flushing from Z drains the whole chain
    let removed = pool.remove_blocks_by_parent(&hash(100));
    assert_eq!(removed.len(), 2);
    assert_eq!(removed[0].hash, hash(1));
    assert_eq!(removed[1].hash, hash(2));
}

#[test]
fn orphan_expiry_evicts_old_subtrees() {
    let mut pool = OrphanBlockPool::with_capacity(16);
    // one old subtree (epoch 1) and one fresh subtree (epoch 100)
    pool.insert(lonely(2, 1, 1));
    pool.insert(lonely(3, 2, 1));
    pool.insert(lonely(20, 10, 100));
    // epoch 1 + 6 < 100, epoch 100 + 6 >= 100
    let removed = pool.clean_expired_blocks(100);
    assert_eq!(removed.len(), 2);
    assert_eq!(pool.len(), 1);
    assert!(pool.get_block(&hash(20)).is_some());
    assert!(pool.get_block(&hash(2)).is_none());
    assert!(pool.get_block(&hash(3)).is_none());
    // at the cutoff itself nothing expires: epoch 100 + 6 >= 106
    let removed = pool.clean_expired_blocks(106);
    assert!(removed.is_empty());
    // one past the cutoff, the last subtree goes too
    let removed = pool.clean_expired_blocks(107);
    assert_eq!(removed.len(), 1);
    assert_eq!(pool.len(), 0);
}

#[test]
fn orphan_insert_replaces_duplicate_hash() {
    // a record arriving again under a new parent supersedes the old one
    let mut pool = OrphanBlockPool::with_capacity(16);
    pool.insert(lonely(2, 1, 5));
    pool.insert(lonely(2, 9, 7));
    assert_eq!(pool.len(), 1);
    let got = pool.get_block(&hash(2)).unwrap();
    assert_eq!(got.parent_hash, hash(9));
    assert_eq!(got.epoch_number, 7);
    // the stale parent stopped leading; the new one leads
    assert_eq!(pool.clone_leaders(), vec![hash(9)]);
}
