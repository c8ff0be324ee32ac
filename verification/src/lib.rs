//! A verified per-chain staking-event indexing engine.
//!
//! The library turns a chain's append-only log of blocks into a gap-free,
//! duplicate-free sequence of decoded staking events, committed atomically
//! together with a monotonically advancing checkpoint, so that ingestion can
//! resume exactly where it left off after any restart, stall, or crash.
//!
//! Layout:
//! - `types`: the plain data model (raw logs, decoded events, configuration);
//! - `model`: the mathematical view of an event log as a map keyed by the
//!   natural event key, and the lemmas that govern it;
//! - `decode`: the schema-aware decoder from raw logs to typed events;
//! - `store`: the checkpoint store with its atomic commit operation;
//! - `chain`: a pure description of a chain's blocks and their logs;
//! - `indexer`: the indexing engine (backfill, live tail, failure policy)
//!   and the proofs of its global guarantees.

pub mod chain;
pub mod decode;
pub mod indexer;
pub mod model;
pub mod store;
pub mod types;
