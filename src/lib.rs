//! Distributed chunk-encoding scheduler: work units, per-node admission,
//! the shared pending/completed queue with its retry discipline, the
//! request/response contract between orchestrator and worker, and the
//! index ordering used for reassembly.
pub mod chunk;
pub mod error;
pub mod scheduler;
pub mod text;
pub mod config;
pub mod rpc;
pub mod nodes;
pub mod media;
pub mod settings;
