use ckb_node::sort_key::{sort_keys, AncestorsScoreSortKey};
use ckb_node::tx_pool::{check_rbf_fee, PoolMap, Reject, Transaction, TxEntry, TxPool};
use ckb_node::types::{Byte32, OutPoint, ProposalShortId};

const DEFAULT_MAX_ANCESTORS_COUNT: usize = 125;

fn hash(n: u64) -> Byte32 {
    Byte32 { w0: n, w1: 0, w2: 0, w3: 0 }
}

fn key(fee: u64, weight: u64, ancestors_fee: u64, ancestors_weight: u64) -> AncestorsScoreSortKey {
    AncestorsScoreSortKey { fee, weight, ancestors_fee, ancestors_weight }
}

#[test]
fn test_min_fee_and_weight() {
    let result: Vec<(u64, u64)> = vec![
        (0, 0, 0, 0),
        (1, 0, 1, 0),
        (500, 10, 1000, 30),
        (10, 500, 30, 1000),
        (500, 10, 1000, 20),
        (u64::MAX, 0, u64::MAX, 0),
        (u64::MAX, 100, u64::MAX, 2000),
        (u64::MAX, u64::MAX, u64::MAX, u64::MAX),
    ]
    .into_iter()
    .map(|(fee, weight, ancestors_fee, ancestors_weight)| {
        key(fee, weight, ancestors_fee, ancestors_weight).min_fee_and_weight()
    })
    .collect::<Vec<_>>();
    assert_eq!(
        result,
        vec![
            (0, 0),
            (1, 0),
            (1000, 30),
            (10, 500),
            (1000, 20),
            (u64::MAX, 0),
            (u64::MAX, 2000),
            (u64::MAX, u64::MAX),
        ]
    );
}

#[test]
fn test_ancestors_sorted_key_order() {
    let table: Vec<(u64, u64, u64, u64)> = vec![
        (0, 0, 0, 0),
        (1, 0, 1, 0),
        (500, 10, 1000, 30),
        (10, 500, 30, 1000),
        (500, 10, 1000, 30),
        (10, 500, 30, 1000),
        (500, 10, 1000, 20),
        (u64::MAX, 0, u64::MAX, 0),
        (u64::MAX, 100, u64::MAX, 2000),
        (u64::MAX, u64::MAX, u64::MAX, u64::MAX),
    ];
    let keys = table
        .clone()
        .into_iter()
        .map(|(fee, weight, ancestors_fee, ancestors_weight)| {
            key(fee, weight, ancestors_fee, ancestors_weight)
        })
        .collect::<Vec<_>>();
    let sorted = sort_keys(&keys);
    let now = sorted
        .into_iter()
        .map(|k| (k.fee, k.weight, k.ancestors_fee, k.ancestors_weight))
        .collect::<Vec<_>>();
    let expect = [0, 3, 5, 9, 2, 4, 6, 8, 1, 7]
        .iter()
        .map(|&i| table[i as usize])
        .collect::<Vec<_>>();
    assert_eq!(now, expect);
}

#[test]
fn test_remove_entry() {
    let mut map = PoolMap::new(DEFAULT_MAX_ANCESTORS_COUNT);
    let tx1 = TxEntry::dummy_resolve(
        Transaction { hash: hash(1), inputs: Vec::new(), outputs_count: 1 },
        100,
        100,
        100,
    );
    let tx2 = TxEntry::dummy_resolve(
        Transaction {
            hash: hash(2),
            inputs: vec![OutPoint { tx_hash: hash(1), index: 0 }],
            outputs_count: 1,
        },
        200,
        200,
        200,
    );
    let tx3 = TxEntry::dummy_resolve(
        Transaction {
            hash: hash(3),
            inputs: vec![OutPoint { tx_hash: hash(2), index: 0 }],
            outputs_count: 1,
        },
        200,
        200,
        200,
    );
    let tx1_id = tx1.proposal_short_id();
    let tx2_id = tx2.proposal_short_id();
    let tx3_id = tx3.proposal_short_id();
    map.add_proposed(tx1).unwrap();
    map.add_proposed(tx2).unwrap();
    map.add_proposed(tx3).unwrap();
    let descendants_set = map.calc_descendants(&tx1_id);
    assert!(descendants_set.contains(&tx2_id));
    assert!(descendants_set.contains(&tx3_id));

    let tx3_entry = map.get(&tx3_id);
    assert!(tx3_entry.is_some());
    let tx3_entry = tx3_entry.unwrap();
    assert_eq!(tx3_entry.ancestors_count, 3);

    map.remove_entry(&tx1_id);
    assert!(!map.contains_key(&tx1_id));
    assert!(map.contains_key(&tx2_id));
    assert!(map.contains_key(&tx3_id));

    let tx3_entry = map.get(&tx3_id).unwrap();
    assert_eq!(tx3_entry.ancestors_count, 2);
    let ancestors = map.calc_ancestors(&tx3_id);
    assert_eq!(ancestors, vec![tx2_id]);
}

#[test]
fn test_remove_entry_and_descendants() {
    let mut map = PoolMap::new(DEFAULT_MAX_ANCESTORS_COUNT);
    let tx1 = TxEntry::dummy_resolve(
        Transaction { hash: hash(1), inputs: Vec::new(), outputs_count: 1 },
        100,
        100,
        100,
    );
    let tx2 = TxEntry::dummy_resolve(
        Transaction {
            hash: hash(2),
            inputs: vec![OutPoint { tx_hash: hash(1), index: 0 }],
            outputs_count: 1,
        },
        200,
        200,
        200,
    );
    let tx3 = TxEntry::dummy_resolve(
        Transaction {
            hash: hash(3),
            inputs: vec![OutPoint { tx_hash: hash(2), index: 0 }],
            outputs_count: 1,
        },
        200,
        200,
        200,
    );
    let tx1_id = tx1.proposal_short_id();
    let tx2_id = tx2.proposal_short_id();
    let tx3_id = tx3.proposal_short_id();
    map.add_proposed(tx1).unwrap();
    map.add_proposed(tx2).unwrap();
    map.add_proposed(tx3).unwrap();
    let descendants_set = map.calc_descendants(&tx1_id);
    assert!(descendants_set.contains(&tx2_id));
    assert!(descendants_set.contains(&tx3_id));
    map.remove_entry_and_descendants(&tx2_id);
    assert!(!map.contains_key(&tx2_id));
    assert!(!map.contains_key(&tx3_id));
    let descendants_set = map.calc_descendants(&tx1_id);
    assert!(!descendants_set.contains(&tx2_id));
    assert!(!descendants_set.contains(&tx3_id));
}

#[test]
fn test_add_rejections() {
    let mut map = PoolMap::new(1);
    let tx1 = TxEntry::dummy_resolve(
        Transaction { hash: hash(1), inputs: Vec::new(), outputs_count: 1 },
        100,
        100,
        100,
    );
    let tx1_dup = TxEntry::dummy_resolve(
        Transaction { hash: hash(1), inputs: Vec::new(), outputs_count: 1 },
        100,
        100,
        100,
    );
    let tx2 = TxEntry::dummy_resolve(
        Transaction {
            hash: hash(2),
            inputs: vec![OutPoint { tx_hash: hash(1), index: 0 }],
            outputs_count: 1,
        },
        200,
        200,
        200,
    );
    let tx3 = TxEntry::dummy_resolve(
        Transaction {
            hash: hash(3),
            inputs: vec![OutPoint { tx_hash: hash(1), index: 0 }],
            outputs_count: 1,
        },
        200,
        200,
        200,
    );
    map.add_proposed(tx1).unwrap();
    assert_eq!(map.add_proposed(tx1_dup), Err(Reject::Duplicate));
    // the pool allows at most one ancestor here: tx2 would carry two
    assert_eq!(map.add_proposed(tx2), Err(Reject::TooManyAncestors));
    assert_eq!(map.len(), 1);
    // a transaction spending the same outpoint as another pool transaction
    let mut map2 = PoolMap::new(125);
    let tx2b = TxEntry::dummy_resolve(
        Transaction {
            hash: hash(2),
            inputs: vec![OutPoint { tx_hash: hash(1), index: 0 }],
            outputs_count: 1,
        },
        200,
        200,
        200,
    );
    map2.add_proposed(tx2b).unwrap();
    assert_eq!(
        map2.add_proposed(tx3),
        Err(Reject::Conflict(OutPoint { tx_hash: hash(1), index: 0 }))
    );
}

#[test]
fn test_submit_entry_limits() {
    // fee floor: 1000 shannons per kB; pool budget: 350 bytes
    let mut pool = TxPool::new(125, 350, 1000);
    let cheap = TxEntry::dummy_resolve(
        Transaction { hash: hash(1), inputs: Vec::new(), outputs_count: 1 },
        100,
        0,
        100,
    );
    assert_eq!(pool.submit_entry(cheap), Err(Reject::LowFeeRate));
    for n in 0..3u64 {
        let e = TxEntry::dummy_resolve(
            Transaction { hash: hash(10 + n), inputs: Vec::new(), outputs_count: 1 },
            100,
            100,
            100,
        );
        assert_eq!(pool.submit_entry(e), Ok(()));
    }
    let overflow_pool = TxEntry::dummy_resolve(
        Transaction { hash: hash(20), inputs: Vec::new(), outputs_count: 1 },
        100,
        100,
        100,
    );
    assert_eq!(pool.submit_entry(overflow_pool), Err(Reject::PoolFull));
    assert_eq!(pool.pool_size(), 300);
    let removed = pool.remove_entry(&ProposalShortId::from_tx_hash(&hash(10)));
    assert!(removed.is_some());
    assert_eq!(pool.pool_size(), 200);
    // replacement-by-fee: strictly more fee, plus the evicted bytes at floor
    assert!(check_rbf_fee(301, 200, 100, 1000));
    assert!(check_rbf_fee(300, 200, 100, 1000));
    assert!(!check_rbf_fee(299, 200, 100, 1000));
    assert!(!check_rbf_fee(200, 200, 100, 1000));
}

#[test]
fn test_admit_parent_under_waiting_child() {
    // a child sits in the pool while its parent arrives afterwards: the
    // recomputed aggregates pick the new edge up
    let mut map = PoolMap::new(125);
    let child = TxEntry::dummy_resolve(
        Transaction {
            hash: hash(2),
            inputs: vec![OutPoint { tx_hash: hash(1), index: 0 }],
            outputs_count: 1,
        },
        200,
        200,
        200,
    );
    let parent = TxEntry::dummy_resolve(
        Transaction { hash: hash(1), inputs: Vec::new(), outputs_count: 1 },
        100,
        100,
        100,
    );
    let child_id = child.proposal_short_id();
    let parent_id = parent.proposal_short_id();
    map.add_proposed(child).unwrap();
    assert_eq!(map.get(&child_id).unwrap().ancestors_count, 1);
    map.add_proposed(parent).unwrap();
    assert_eq!(map.get(&child_id).unwrap().ancestors_count, 2);
    assert_eq!(map.get(&parent_id).unwrap().descendants_count, 2);
    assert_eq!(map.calc_ancestors(&child_id), vec![parent_id]);
}

#[test]
fn test_evict_to_fit_drops_cheapest_bundle() {
    // budget 350 bytes; a cheap parent with its child, and a dear loner
    let mut pool = TxPool::new(125, 350, 0);
    let cheap_parent = TxEntry::dummy_resolve(
        Transaction { hash: hash(1), inputs: Vec::new(), outputs_count: 1 },
        100,
        100,
        100,
    );
    let cheap_child = TxEntry::dummy_resolve(
        Transaction {
            hash: hash(2),
            inputs: vec![OutPoint { tx_hash: hash(1), index: 0 }],
            outputs_count: 1,
        },
        100,
        150,
        100,
    );
    let dear = TxEntry::dummy_resolve(
        Transaction { hash: hash(3), inputs: Vec::new(), outputs_count: 1 },
        100,
        90_000,
        100,
    );
    let parent_id = cheap_parent.proposal_short_id();
    let child_id = cheap_child.proposal_short_id();
    let dear_id = dear.proposal_short_id();
    pool.submit_entry(cheap_parent).unwrap();
    pool.submit_entry(cheap_child).unwrap();
    pool.submit_entry(dear).unwrap();
    assert_eq!(pool.pool_size(), 300);
    // make room for 200 more bytes: the cheapest bundle (parent + child) goes
    let removed = pool.evict_to_fit(200);
    assert_eq!(removed.len(), 2);
    assert!(!pool.contains_key(&parent_id));
    assert!(!pool.contains_key(&child_id));
    assert!(pool.contains_key(&dear_id));
    assert_eq!(pool.pool_size(), 100);
}
