//! A KV cache-centric scheduling policy.
//!
//! A request goes to the worker with the least estimated time to first token, and a prefill slot
//! is reserved for it there. The estimate is made in binary64 arithmetic, which `binary64`
//! states and computes bit for bit; `cost` has the model, `policy` the choice, and `laws` what
//! holds of them together. `concurrent` has the calls of several threads at once,
//! and `nearest`, `formulas`, `requests` and `calls` say what the numbers, the costs, the choice and
//! each function called are for.
pub mod binary64;
pub mod calls;
pub mod concurrent;
pub mod config;
pub mod cost;
pub mod defaults;
pub mod formulas;
pub mod laws;
pub mod nearest;
pub mod order;
pub mod overlap;
pub mod policy;
pub mod requests;
pub mod rounding;
pub mod workers;

pub use binary64::Binary64;
pub use config::{override_path, KvCentricConfig, KvCentricOverrides, OverrideFile, OVERRIDE_ENV};
pub use cost::TtftEstimate;
pub use overlap::{CacheModel, KvEventMonitor, ModelIndex};
pub use policy::{KvCentricPolicy, SelectWorkerInfo};
pub use workers::{get_healthy_worker_indices, WorkerState, WorkerType};
