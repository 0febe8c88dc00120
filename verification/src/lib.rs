//! A small benchmarking library: a harness that records per-iteration
//! (result, duration) pairs for a named workload and reports summary
//! statistics, and a chunked reducer that partitions an index space
//! across a fixed number of workers and combines their partial counts.

pub mod harness;
pub mod reducer;
pub mod workload;
