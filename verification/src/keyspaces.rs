//! Parameters of the storage layer.

use vstd::prelude::*;

verus! {

/// The size of the block cache unless configured: 256 MB.
pub const DEFAULT_CACHE_SIZE: u64 = 256 * 1024 * 1024;

/// The kind of disk that the parameters are tuned for.
#[derive(Clone, Copy, Debug, PartialEq, Eq, Structural)]
pub enum StorageProfile {
    Ssd,
    Hdd,
}

impl StorageProfile {
    /// The block size of the ghost keyspace.
    pub fn ghost_block_size(self) -> (n: u32)
        ensures
            n == match self {
                StorageProfile::Ssd => 64 * 1024u32,
                StorageProfile::Hdd => 256 * 1024u32,
            },
    {
        match self {
            StorageProfile::Ssd => 64 * 1024,
            StorageProfile::Hdd => 256 * 1024,
        }
    }
}

impl Default for StorageProfile {
    fn default() -> (r: Self)
        ensures
            r == StorageProfile::Ssd,
    {
        StorageProfile::Ssd
    }
}

/// How reads and writes are scheduled.
#[derive(Clone, Copy, Debug, PartialEq, Eq, Structural)]
pub enum IoSchedulerMode {
    Ssd,
    Hdd,
}

impl Default for IoSchedulerMode {
    fn default() -> (r: Self)
        ensures
            r == IoSchedulerMode::Ssd,
    {
        IoSchedulerMode::Ssd
    }
}

} // verus!
