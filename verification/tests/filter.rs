use ckb_node::config::FilterConfig;
use ckb_node::filter::FilterStore;
use ckb_node::types::Byte32;

fn blake2b256(data: &[u8]) -> [u8; 32] {
    let mut out = [0u8; 32];
    let mut state = blake2b_ref::Blake2bBuilder::new(32)
        .personal(b"ckb-default-hash")
        .build();
    state.update(data);
    state.finalize(&mut out);
    out
}

fn hash(n: u64) -> Byte32 {
    Byte32 { w0: n, w1: 0, w2: 0, w3: 0 }
}

fn raw_filter_for(n: u64) -> Vec<u8> {
    vec![(n % 251) as u8, (n % 7) as u8, 3, 4]
}

/// Recompute the filter-hash chain independently, byte for byte.
fn expected_chain(total: u64) -> Vec<[u8; 32]> {
    let mut hashes: Vec<[u8; 32]> = Vec::new();
    let mut parent = [0u8; 32];
    for n in 0..total {
        let raw_hash = blake2b256(&raw_filter_for(n));
        let mut input = Vec::new();
        input.extend_from_slice(&parent);
        input.extend_from_slice(&raw_hash);
        let fh = blake2b256(&input);
        hashes.push(fh);
        parent = fh;
    }
    hashes
}

fn build_store(total: u64) -> FilterStore {
    let mut store = FilterStore::new(FilterConfig::default());
    for n in 0..total {
        store.add_filter(hash(n), raw_filter_for(n));
    }
    store
}

#[test]
fn filter_checkpoints_at_tip_4001() {
    // mine 4001 blocks; checkpoints from 0 come at heights 0, 2000, 4000
    let total: u64 = 4001;
    let store = build_store(total);
    let (start, points) = store.get_block_filter_check_points(0);
    assert_eq!(start, 0);
    assert_eq!(points.len(), 3);
    let expected = expected_chain(total);
    for (i, point) in points.iter().enumerate() {
        let height = (i as u64) * 2000;
        assert_eq!(point.to_bytes(), expected[height as usize].to_vec());
    }
}

#[test]
fn filter_hash_chain_rule_holds() {
    let total: u64 = 5;
    let store = build_store(total);
    let (start, parent, hashes) = store.get_block_filter_hashes(0);
    assert_eq!(start, 0);
    assert_eq!(parent.to_bytes(), vec![0u8; 32]);
    assert_eq!(hashes.len(), 5);
    let expected = expected_chain(total);
    for (i, h) in hashes.iter().enumerate() {
        assert_eq!(h.to_bytes(), expected[i].to_vec());
    }
}

#[test]
fn filter_hashes_batch_is_capped() {
    let total: u64 = 2501;
    let store = build_store(total);
    // a full batch of 2000 from height 2
    let (start, parent, hashes) = store.get_block_filter_hashes(2);
    assert_eq!(start, 2);
    assert_eq!(hashes.len(), 2000);
    let expected = expected_chain(total);
    assert_eq!(parent.to_bytes(), expected[1].to_vec());
    for (i, h) in hashes.iter().enumerate() {
        assert_eq!(h.to_bytes(), expected[i + 2].to_vec());
    }
}

#[test]
fn filters_batch_not_reaching_limit() {
    // request close to the tip: the response carries only what exists
    let total: u64 = 2001;
    let store = build_store(total);
    let filters_count: u64 = 123;
    let start_number: u64 = total - filters_count;
    let (start, block_hashes, filters) = store.get_block_filters(start_number);
    assert_eq!(start, start_number);
    assert_eq!(block_hashes.len(), filters_count as usize);
    assert_eq!(filters.len(), filters_count as usize);
    for i in 0..filters_count {
        let number = start_number + i;
        assert_eq!(block_hashes[i as usize], hash(number));
        assert_eq!(filters[i as usize], raw_filter_for(number));
    }
}

#[test]
fn filters_batch_is_capped_at_1000() {
    let total: u64 = 2001;
    let store = build_store(total);
    let (start, block_hashes, filters) = store.get_block_filters(42);
    assert_eq!(start, 42);
    assert_eq!(block_hashes.len(), 1000);
    assert_eq!(filters.len(), 1000);
    for i in 0..1000u64 {
        assert_eq!(block_hashes[i as usize], hash(42 + i));
        assert_eq!(filters[i as usize], raw_filter_for(42 + i));
    }
}

#[test]
fn filter_config_rejects_zero_options() {
    assert!(FilterConfig::new(0, 2000, 1000).is_none());
    assert!(FilterConfig::new(2000, 0, 1000).is_none());
    assert!(FilterConfig::new(2000, 2000, 0).is_none());
    assert!(FilterConfig::new(2000, 2000, 1000).is_some());
}

#[test]
fn filter_requests_past_frontier_return_nothing() {
    let store = build_store(5);
    let (start, points) = store.get_block_filter_check_points(9);
    assert_eq!(start, 9);
    assert!(points.is_empty());
    let (_, parent, hashes) = store.get_block_filter_hashes(9);
    assert_eq!(parent.to_bytes(), vec![0u8; 32]);
    assert!(hashes.is_empty());
    let (_, block_hashes, filters) = store.get_block_filters(9);
    assert!(block_hashes.is_empty());
    assert!(filters.is_empty());
    // exactly at the frontier: the parent is the tip's filter hash
    let expected = expected_chain(5);
    let (_, parent, hashes) = store.get_block_filter_hashes(5);
    assert_eq!(parent.to_bytes(), expected[4].to_vec());
    assert!(hashes.is_empty());
}
