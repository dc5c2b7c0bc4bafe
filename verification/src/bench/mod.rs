//! The benchmark harness: configuration, deterministic workloads, sampling and
//! statistics.

pub mod args;
pub mod outline;
pub mod report;
pub mod rng;
pub mod sampling;
pub mod scene;
pub mod stats;
pub mod style;
pub mod text;
pub mod workload;
