use ckb_node::config::{
    default_db_host, default_db_name, default_db_password, default_db_port, default_db_user,
    DBDriver, RichIndexerConfig, TxPoolConfig,
};
use ckb_node::error::{is_internal_db_error, AnyError, ErrorKind, InternalErrorKind, NodeError};
use ckb_node::types::{Byte32, ProposalShortId};

#[test]
fn internal_db_error_classifier() {
    let db = NodeError::internal(
        InternalErrorKind::Database,
        AnyError::from_text("store failed".to_string()),
    );
    assert!(is_internal_db_error(&db));
    let sys = NodeError::internal(
        InternalErrorKind::System,
        AnyError::from_text("os failed".to_string()),
    );
    assert!(is_internal_db_error(&sys));
    let other = NodeError::internal(
        InternalErrorKind::Other,
        AnyError::from_text("something else".to_string()),
    );
    assert!(!is_internal_db_error(&other));
    let header = NodeError::new(
        ErrorKind::Header,
        AnyError::from_text("bad header".to_string()),
    );
    assert!(!is_internal_db_error(&header));
    assert_eq!(header.kind(), ErrorKind::Header);
    assert_eq!(db.kind(), ErrorKind::Internal);
    assert_eq!(db.internal_kind(), Some(InternalErrorKind::Database));
}

#[test]
fn rich_indexer_defaults() {
    let config = RichIndexerConfig::default();
    assert_eq!(config.db_type, DBDriver::Sqlite);
    assert_eq!(config.store, "");
    assert_eq!(config.db_name, "ckb-rich-indexer");
    assert_eq!(config.db_host, "127.0.0.1");
    assert_eq!(config.db_port, 8532);
    assert_eq!(config.db_user, "postgres");
    assert_eq!(config.db_password, "123456");
    assert_eq!(default_db_name(), "ckb-rich-indexer");
    assert_eq!(default_db_host(), "127.0.0.1");
    assert_eq!(default_db_port(), 8532);
    assert_eq!(default_db_user(), "postgres");
    assert_eq!(default_db_password(), "123456");
    assert_eq!(DBDriver::Sqlite.uri_prefix(), "sqlite://");
    assert_eq!(DBDriver::Postgres.uri_prefix(), "postgres://");
    assert_eq!(DBDriver::default(), DBDriver::Sqlite);
}

#[test]
fn tx_pool_defaults() {
    let config = TxPoolConfig::default();
    assert_eq!(config.max_ancestors, 125);
    assert_eq!(config.min_fee_rate, 1000);
}

#[test]
fn byte32_round_trips_and_orders() {
    let h = Byte32 { w0: 0x0102030405060708, w1: 9, w2: 10, w3: 11 };
    let bytes = h.to_bytes();
    assert_eq!(bytes.len(), 32);
    assert_eq!(&bytes[0..8], &[1, 2, 3, 4, 5, 6, 7, 8]);
    let back = Byte32::from_bytes(&bytes);
    assert_eq!(back, h);
    let smaller = Byte32 { w0: 0x0102030405060707, w1: 99, w2: 99, w3: 99 };
    assert!(smaller.lt(&h));
    assert!(!h.lt(&smaller));
    assert!(!h.lt(&h));
}

#[test]
fn short_id_takes_first_ten_bytes() {
    let h = Byte32 { w0: 0x1122334455667788, w1: 0x99aa000000000000, w2: 0, w3: 0 };
    let id = ProposalShortId::from_tx_hash(&h);
    assert_eq!(id.hi, 0x1122334455667788);
    assert_eq!(id.lo, 0x99aa);
}
