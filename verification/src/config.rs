//! The options of the server.

use vstd::prelude::*;
use vstd::string::StringExecFns;

verus! {

/// The options that the server recognizes.
#[derive(Debug, Clone, PartialEq, Eq)]
pub struct Config {
    /// The directory of the segment files.
    pub logs_dir: String,
    /// The port that the listener binds.
    pub port: u32,
    /// The number of segments in the pool.
    pub wal_pool_size: usize,
}

/// The options of a server that is given none.
pub fn get_default_config() -> (config: Config)
    ensures
        config.logs_dir@ == "./logs"@,
        config.port == 4000,
        config.wal_pool_size == 2,
{
    Config { logs_dir: String::from_str("./logs"), port: 4000, wal_pool_size: 2 }
}

} // verus!
