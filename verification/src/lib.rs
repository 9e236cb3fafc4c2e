//! Durable-state plumbing of a chain node: the persistence fence between the
//! staged pipeline and the engine, the pipeline handoff, the state-base export
//! format, the per-block delta stream and the read-side barrier. Everything
//! here is a function of plain values; the programs around it do the I/O.

pub mod barrier;
pub mod chain;
pub mod changes;
pub mod commit_point;
pub mod conduct;
pub mod coverage;
pub mod delta;
pub mod durable;
pub mod emit;
pub mod error;
pub mod export;
pub mod hash;
pub mod history;
pub mod json;
pub mod launch;
pub mod marker;
pub mod metrics;
pub mod number;
pub mod numerals;
pub mod persistence;
pub mod persistence_fence;
pub mod primitives;
pub mod published;
pub mod ranges;
pub mod readback;
pub mod replay;
pub mod scrape;
pub mod shard;
pub mod shipping;
pub mod sink;
pub mod snapshot;
pub mod stale;
pub mod static_file;
pub mod sync_status;
pub mod text;
pub mod upkeep;
pub mod walk;
pub mod words;
