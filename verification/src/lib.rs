//! Chunk-aware routing of inference requests.
//!
//! A router that dispatches requests to a fleet of workers places each of them
//! by the prefill work that is pending on the workers, and treats the prefix that
//! a worker already holds as a bounded credit. The policy is in [`chunk_aware`],
//! its rate measurement in [`prefill`] and [`store`], its choice among scores in
//! [`scoring`]. [`worker_manager`], [`loads`] and [`monitor`] decide what the
//! router asks of its workers and what it makes of their answers.
//!
//! Scores are floating-point numbers. [`binary64`] computes them on bit patterns,
//! and is proved to round as [`number`] and [`rounding`] say.
//!
//! [`laws`], [`rates`], [`decisions`] and [`tallies`] state what holds across these
//! functions; [`accuracy`] and [`ties`] say how close the rounded results come to
//! the quantities they stand for.
pub mod accuracy;
pub mod binary64;
pub mod chunk_aware;
pub mod decisions;
pub mod json;
pub mod keyed;
pub mod laws;
pub mod loads;
pub mod monitor;
pub mod number;
pub mod order;
pub mod policy;
pub mod prefill;
pub mod rates;
pub mod rounding;
pub mod scoring;
pub mod status;
pub mod store;
pub mod tallies;
pub mod text;
pub mod ties;
pub mod worker;
pub mod worker_manager;
