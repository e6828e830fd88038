use ckb_node::header_map::{decode_header, encode_header, HeaderIndexView, HeaderMap, SledBackend};
use ckb_node::types::Byte32;

fn hash(n: u64) -> Byte32 {
    Byte32 { w0: n, w1: 0, w2: 0, w3: 0 }
}

fn view(n: u64) -> HeaderIndexView {
    HeaderIndexView {
        hash: hash(n),
        number: n,
        epoch_number: n / 1800,
        timestamp: 1_600_000_000_000 + n,
        total_difficulty: 10 * n,
    }
}

#[test]
fn header_codec_round_trips() {
    let v = view(42);
    let bytes = encode_header(&v);
    assert_eq!(bytes.len(), 64);
    let back = decode_header(&bytes);
    assert_eq!(back, v);
}

#[test]
fn sled_backend_stores_and_counts() {
    let mut backend = SledBackend::new();
    assert_eq!(backend.len(), 0);
    assert!(!backend.insert(&view(1)));
    assert!(!backend.insert(&view(2)));
    assert!(backend.insert(&view(1)));
    assert_eq!(backend.len(), 2);
    assert!(backend.contains_key(&hash(1)));
    assert_eq!(backend.get(&hash(2)), Some(view(2)));
    assert_eq!(backend.remove(&hash(1)), Some(view(1)));
    assert_eq!(backend.len(), 1);
    assert!(backend.get(&hash(1)).is_none());
    backend.remove_no_return(&hash(2));
    assert_eq!(backend.len(), 0);
}

#[test]
fn sled_backend_insert_batch() {
    let mut backend = SledBackend::new();
    let values = vec![view(1), view(2), view(3)];
    backend.insert_batch(&values);
    assert_eq!(backend.len(), 3);
    for n in 1..=3 {
        assert_eq!(backend.get(&hash(n)), Some(view(n)));
    }
}

#[test]
fn header_map_spills_and_promotes() {
    let mut map = HeaderMap::new(2);
    map.insert(view(1));
    map.insert(view(2));
    map.insert(view(3));
    // the memory tier holds two records; the oldest spilled to disk
    assert_eq!(map.len(), 3);
    for n in 1..=3 {
        assert!(map.contains_key(&hash(n)));
    }
    // a get on the spilled record promotes it back into memory
    assert_eq!(map.get(&hash(1)), Some(view(1)));
    assert_eq!(map.len(), 3);
    assert!(map.contains_key(&hash(1)));
    // a duplicate insert changes nothing
    assert!(!map.insert(view(2)));
    assert_eq!(map.len(), 3);
    // removal forgets the record wherever it sits
    map.remove(&hash(2));
    assert!(!map.contains_key(&hash(2)));
    assert!(map.get(&hash(2)).is_none());
    map.remove(&hash(1));
    map.remove(&hash(3));
    assert_eq!(map.len(), 0);
    assert!(map.get(&hash(9)).is_none());
}
