//! Execution backend of a GPU-resident model-serving node.
//!
//! The crate covers the node-local backend pipeline: model-session identity
//! and lifecycle, the native-engine execution bridge, GPU device binding and
//! identification, the per-request query record with its deadline and causal
//! timestamp trail, and the latency/memory profile model used to reason about
//! batch sizing.

pub mod backend;
pub mod common;
pub mod cuda_device;
pub mod decimal;
pub mod error;
pub mod model_executor;
pub mod profile;
pub mod query;
pub mod text;
pub mod tfwrapper;
pub mod utils;
