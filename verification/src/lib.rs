//! Core of a proof-of-work blockchain node: orphan-block management, a
//! transaction pool with ancestor/descendant accounting, a chain service
//! that extends and reorganizes the canonical chain, and a block-filter
//! service with hash chains and checkpoints.

pub mod chain;
pub mod config;
pub mod digest;
pub mod error;
pub mod filter;
pub mod header_map;
pub mod orphan_pool;
pub mod orphan_tx_pool;
pub mod recent_reject;
pub mod sort_key;
pub mod tx_pool;
pub mod verify_queue;
pub mod types;
