//! Configuration options that the core recognizes, with their defaults.

use vstd::prelude::*;

verus! {

broadcast use vstd::string::to_string_from_display_ensures_for_str;

/// Database backend of the rich indexer.
#[derive(Clone, Copy, Debug, PartialEq, Eq, Structural)]
pub enum DBDriver {
    /// An embedded file database.
    Sqlite,
    /// An external relational database.
    Postgres,
}

impl DBDriver {
    /// The connection-string prefix the driver is written as.
    pub fn uri_prefix(&self) -> (r: String)
        ensures
            *self == DBDriver::Sqlite ==> r@ == "sqlite://"@,
            *self == DBDriver::Postgres ==> r@ == "postgres://"@,
    {
        match self {
            DBDriver::Sqlite => "sqlite://".to_string(),
            DBDriver::Postgres => "postgres://".to_string(),
        }
    }
}

impl Default for DBDriver {
    /// The default backend is the embedded one.
    fn default() -> (r: DBDriver)
        ensures
            r == DBDriver::Sqlite,
    {
        DBDriver::Sqlite
    }
}

/// The default rich-indexer database name.
pub fn default_db_name() -> (r: String)
    ensures
        r@ == "ckb-rich-indexer"@,
{
    "ckb-rich-indexer".to_string()
}

/// The default rich-indexer database host.
pub fn default_db_host() -> (r: String)
    ensures
        r@ == "127.0.0.1"@,
{
    "127.0.0.1".to_string()
}

/// The default rich-indexer database port.
pub fn default_db_port() -> (r: u16)
    ensures
        r == 8532u16,
{
    8532
}

/// The default rich-indexer database user.
pub fn default_db_user() -> (r: String)
    ensures
        r@ == "postgres"@,
{
    "postgres".to_string()
}

/// The default rich-indexer database password.
pub fn default_db_password() -> (r: String)
    ensures
        r@ == "123456"@,
{
    "123456".to_string()
}

/// Rich indexer options.
#[derive(Clone, Debug)]
pub struct RichIndexerConfig {
    /// Database backend.
    pub db_type: DBDriver,
    /// Path of the embedded store.
    pub store: String,
    /// Database name.
    pub db_name: String,
    /// Database host.
    pub db_host: String,
    /// Database port.
    pub db_port: u16,
    /// Database user.
    pub db_user: String,
    /// Database password.
    pub db_password: String,
}

impl Default for RichIndexerConfig {
    /// Every field takes its documented default.
    fn default() -> (r: RichIndexerConfig)
        ensures
            r.db_type == DBDriver::Sqlite,
            r.store@ == Seq::<char>::empty(),
            r.db_name@ == "ckb-rich-indexer"@,
            r.db_host@ == "127.0.0.1"@,
            r.db_port == 8532u16,
            r.db_user@ == "postgres"@,
            r.db_password@ == "123456"@,
    {
        let store = String::new();
        proof {
            assert(store@ =~= Seq::<char>::empty());
        }
        RichIndexerConfig {
            db_type: DBDriver::Sqlite,
            store,
            db_name: default_db_name(),
            db_host: default_db_host(),
            db_port: default_db_port(),
            db_user: default_db_user(),
            db_password: default_db_password(),
        }
    }
}

/// Transaction-pool options.
#[derive(Clone, Copy, Debug)]
pub struct TxPoolConfig {
    /// Admission bound on `ancestors_count`.
    pub max_ancestors: usize,
    /// Size budget of the pool, in bytes.
    pub max_tx_pool_size: u64,
    /// Bound on the verification cache, in entries.
    pub max_verify_cache: usize,
    /// Fee-rate floor, in shannons per kilobyte.
    pub min_fee_rate: u64,
}

impl Default for TxPoolConfig {
    /// The documented defaults.
    fn default() -> (r: TxPoolConfig)
        ensures
            r.max_ancestors == 125,
            r.max_tx_pool_size == 0xc000000u64,
            r.max_verify_cache == 10000,
            r.min_fee_rate == 1000u64,
    {
        TxPoolConfig {
            max_ancestors: 125,
            max_tx_pool_size: 0xc000000,
            max_verify_cache: 10000,
            min_fee_rate: 1000,
        }
    }
}

/// Block-filter wire options; every batch size must be positive.
#[derive(Clone, Copy, Debug)]
pub struct FilterConfig {
    /// Distance between checkpoints.
    pub checkpoint_interval: u64,
    /// Largest filter-hash batch served.
    pub hashes_batch_size: u64,
    /// Largest raw-filter batch served.
    pub filters_batch_size: u64,
}

impl FilterConfig {
    /// A configuration is rejected unless every option is positive.
    pub fn new(checkpoint_interval: u64, hashes_batch_size: u64, filters_batch_size: u64) -> (r:
        Option<FilterConfig>)
        ensures
            match r {
                Some(c) => checkpoint_interval > 0 && hashes_batch_size > 0 && filters_batch_size
                    > 0 && c.checkpoint_interval == checkpoint_interval && c.hashes_batch_size
                    == hashes_batch_size && c.filters_batch_size == filters_batch_size,
                None => !(checkpoint_interval > 0 && hashes_batch_size > 0 && filters_batch_size
                    > 0),
            },
    {
        if checkpoint_interval > 0 && hashes_batch_size > 0 && filters_batch_size > 0 {
            Some(FilterConfig { checkpoint_interval, hashes_batch_size, filters_batch_size })
        } else {
            None
        }
    }
}

impl Default for FilterConfig {
    /// Checkpoints every 2000 blocks, hash batches of 2000, filter batches
    /// of 1000.
    fn default() -> (r: FilterConfig)
        ensures
            r.checkpoint_interval == 2000u64,
            r.hashes_batch_size == 2000u64,
            r.filters_batch_size == 1000u64,
    {
        FilterConfig { checkpoint_interval: 2000, hashes_batch_size: 2000, filters_batch_size: 1000 }
    }
}

} // verus!
