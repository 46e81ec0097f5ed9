//! Archive synchronisation for a blockchain full node.
//!
//! A node catches up with the chain by fetching archives, bundles of blocks
//! keyed by a range of masterchain sequence numbers, from its peers. This crate
//! holds the decisions of that process, free of I/O: which sequence numbers to
//! ask for, which answers to accept, how many fetches may run at once, in what
//! order archives are handed on, and how a hole between two archives is
//! detected and scanned again at a finer stride. Network, parsing and task
//! scheduling stay with the caller, who feeds their results in as plain values.
//!
//! - [`block_maps`]: an archive as the pipeline sees it, the range that it
//!   covers.
//! - [`fetcher`]: which outcome of an attempt ends the fetch of an archive.
//! - [`range`]: the sequence numbers of a strided range, and the downloader
//!   that bounds the fetches in flight and keeps the order of the range.
//! - [`pipeline`]: the check that each archive follows the one before it.
//! - [`gaps`]: the finer scan that fills a gap, and the removal of repeats.
//! - [`replay`]: a whole download, gap filling included, worked out against
//!   recorded answers of the peers, with what holds of every download.
//! - [`config`]: the node's settings and their defaults.

pub mod block_maps;
pub mod config;
pub mod fetcher;
pub mod gaps;
pub mod pipeline;
pub mod range;
pub mod replay;
