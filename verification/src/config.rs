//! The node's settings for storage, garbage collection and synchronisation,
//! with their defaults.

use rand::Rng;
use sysinfo::SystemExt;
use vstd::prelude::*;

verus! {

/// The memory, in bytes, that is left to the write buffer and not given to the
/// caches: 2 GiB.
pub const WRITE_BUFFER_RESERVE: u64 = 2147483648;

/// `sysinfo::System`, the handle through which the machine is asked about
/// itself. Nothing is known of what it holds.
#[verifier::external_type_specification]
#[verifier::external_body]
pub struct ExSystem(sysinfo::System);

/// `rand::rngs::ThreadRng`, the random number generator of the current thread.
#[verifier::external_type_specification]
#[verifier::external_body]
pub struct ExThreadRng(rand::rngs::ThreadRng);

/// `sysinfo::System::new()`: a handle with nothing loaded yet.
#[verifier::external_body]
fn new_system() -> (system: sysinfo::System) {
    sysinfo::System::new()
}

/// `available_memory()` of `sysinfo::System`: the available RAM in bytes, as
/// the handle holds it. The value depends on the machine, on the moment and on
/// what the handle has loaded, so nothing is claimed of it.
#[verifier::external_body]
fn available_memory(system: &sysinfo::System) -> (bytes: u64) {
    system.available_memory()
}

/// `rand::thread_rng()`: the generator of the current thread, seeded by the
/// system.
#[verifier::external_body]
fn thread_rng() -> (rng: rand::rngs::ThreadRng) {
    rand::thread_rng()
}

/// `gen_range(0..bound)` of `rand::Rng`: a number drawn uniformly from below
/// `bound`, of which only the range is claimed. The generator panics on an
/// empty range, so `bound` is positive.
#[verifier::external_body]
fn gen_below(rng: &mut rand::rngs::ThreadRng, bound: u64) -> (drawn: u64)
    requires
        bound > 0,
    ensures
        drawn < bound,
{
    rng.gen_range(0..bound)
}

/// Sizes of the database caches.
#[derive(Debug, Copy, Clone, PartialEq, Eq, Structural)]
pub struct DbOptions {
    pub lru_capacity: usize,
    pub min_caches_capacity: usize,
    pub min_compaction_memory_budget: usize,
    pub caches_size: u64,
}

impl DbOptions {
    /// The options for a machine with `available` bytes of available memory:
    /// what is left above the write buffer reserve is divided in three, one
    /// third for the LRU cache and one third for the other caches.
    pub open spec fn for_memory(available: u64) -> DbOptions {
        let total = (available - WRITE_BUFFER_RESERVE) as u64;
        DbOptions {
            lru_capacity: (total / 3) as usize,
            min_caches_capacity: 67108864,
            min_compaction_memory_budget: 1073741824,
            caches_size: total / 3,
        }
    }

    /// The options for a machine with `available` bytes of available memory.
    /// There are none where the memory does not reach the write buffer
    /// reserve.
    pub fn with_available_memory(available: u64) -> (options: Option<DbOptions>)
        ensures
            available >= WRITE_BUFFER_RESERVE ==> options == Some(DbOptions::for_memory(available)),
            available < WRITE_BUFFER_RESERVE ==> options is None,
    {
        if available < WRITE_BUFFER_RESERVE {
            return None;
        }
        let total: u64 = available - WRITE_BUFFER_RESERVE;
        Some(
            DbOptions {
                lru_capacity: (total / 3) as usize,
                min_caches_capacity: 67108864,
                min_compaction_memory_budget: 1073741824,
                caches_size: total / 3,
            },
        )
    }

    /// The options for this machine, from the available memory that the
    /// system reports. There are none where that does not reach the write
    /// buffer reserve.
    pub fn from_system() -> (options: Option<DbOptions>)
        ensures
            options matches Some(found) ==> exists|available: u64|
                available >= WRITE_BUFFER_RESERVE && found == #[trigger] DbOptions::for_memory(
                    available,
                ),
    {
        let system = new_system();
        DbOptions::with_available_memory(available_memory(&system))
    }
}

/// When archives are removed.
#[derive(Debug, Clone, Copy, PartialEq, Eq, Structural)]
pub enum ArchivesGcInterval {
    /// Do not perform archives GC
    Manual,
    /// Archives GC triggers on each persistent state
    PersistentStates {
        /// Remove archives after this interval after the new persistent state
        offset_sec: u64,
    },
}

impl Default for ArchivesGcInterval {
    fn default() -> (interval: Self)
        ensures
            interval == (ArchivesGcInterval::PersistentStates { offset_sec: 300 }),
    {
        ArchivesGcInterval::PersistentStates { offset_sec: 300 }
    }
}

/// Settings of the archive store.
#[derive(Debug, Clone, Copy, PartialEq, Eq, Structural)]
pub struct ArchiveOptions {
    pub gc_interval: ArchivesGcInterval,
}

impl Default for ArchiveOptions {
    fn default() -> (options: Self)
        ensures
            options.gc_interval == (ArchivesGcInterval::PersistentStates { offset_sec: 300 }),
    {
        ArchiveOptions { gc_interval: ArchivesGcInterval::PersistentStates { offset_sec: 300 } }
    }
}

/// What to do about blocks older than the node's starting point.
#[derive(Debug, Copy, Clone, PartialEq, Eq, Structural)]
pub enum OldBlocksPolicy {
    Ignore,
    Sync { from_seqno: u32 },
}

impl Default for OldBlocksPolicy {
    fn default() -> (policy: Self)
        ensures
            policy == OldBlocksPolicy::Ignore,
    {
        OldBlocksPolicy::Ignore
    }
}

/// Settings of the synchronisation.
#[derive(Debug, Copy, Clone, PartialEq, Eq, Structural)]
pub struct SyncOptions {
    /// Whether to sync very old blocks
    pub old_blocks_policy: OldBlocksPolicy,
    /// Default: 16
    pub parallel_archive_downloads: usize,
    /// Default: 1073741824 (1 GB)
    pub save_to_disk_threshold: usize,
    /// Default: 32
    pub max_block_applier_depth: u32,
    /// Ignore archives. Default: false.
    pub force_use_get_next_block: bool,
}

impl Default for SyncOptions {
    fn default() -> (options: Self)
        ensures
            options == (SyncOptions {
                old_blocks_policy: OldBlocksPolicy::Ignore,
                parallel_archive_downloads: 16,
                save_to_disk_threshold: 1073741824,
                max_block_applier_depth: 32,
                force_use_get_next_block: false,
            }),
    {
        SyncOptions {
            old_blocks_policy: OldBlocksPolicy::Ignore,
            parallel_archive_downloads: 16,
            save_to_disk_threshold: 1073741824,
            max_block_applier_depth: 32,
            force_use_get_next_block: false,
        }
    }
}

/// Settings of the garbage collection of shard states.
#[derive(Debug, Copy, Clone, PartialEq, Eq, Structural)]
pub struct StateGcOptions {
    /// Default: rand[0,900)
    pub offset_sec: u64,
    /// Default: 900
    pub interval_sec: u64,
}

impl Default for StateGcOptions {
    fn default() -> (options: Self)
        ensures
            options.offset_sec < 900,
            options.interval_sec == 900,
    {
        let mut rng = thread_rng();
        StateGcOptions { offset_sec: gen_below(&mut rng, 900), interval_sec: 900 }
    }
}

/// Which blocks the garbage collection removes.
#[derive(Debug, Copy, Clone, PartialEq, Eq, Structural)]
pub enum BlocksGcKind {
    /// On each new key block delete all blocks before the previous one
    BeforePreviousKeyBlock,
    /// On each new key block delete all blocks before the previous key block
    /// with persistent state
    BeforePreviousPersistentState,
}

/// Settings of the garbage collection of blocks.
#[derive(Debug, Copy, Clone)]
pub struct BlocksGcOptions {
    /// Blocks GC type
    pub kind: BlocksGcKind,
    /// Whether to enable blocks GC during sync. Default: true
    pub enable_for_sync: bool,
    /// Max `WriteBatch` entries before apply
    pub max_blocks_per_batch: Option<usize>,
}

impl Default for BlocksGcOptions {
    fn default() -> (options: Self)
        ensures
            options == (BlocksGcOptions {
                kind: BlocksGcKind::BeforePreviousPersistentState,
                enable_for_sync: true,
                max_blocks_per_batch: Some(100_000usize),
            }),
    {
        BlocksGcOptions {
            kind: BlocksGcKind::BeforePreviousPersistentState,
            enable_for_sync: true,
            max_blocks_per_batch: Some(100_000),
        }
    }
}

/// Settings of the cache of shard states.
#[derive(Debug, Copy, Clone, PartialEq, Eq, Structural)]
pub struct ShardStateCacheOptions {
    /// LRU cache item duration. Default: `120`
    pub ttl_sec: u64,
}

impl Default for ShardStateCacheOptions {
    fn default() -> (options: Self)
        ensures
            options == (ShardStateCacheOptions { ttl_sec: 120 }),
    {
        ShardStateCacheOptions { ttl_sec: 120 }
    }
}

} // verus!
