//! A profiler report library for WebAssembly execution-time samples.
//!
//! Samples of per-function execution time are aggregated into a profile
//! keyed by function index; an optional WebAssembly module supplies
//! human-readable function names through its debug name section; the
//! profile is rendered as a sorted textual report.

pub mod decimal;
pub mod profile;
pub mod csv_input;
pub mod report;
pub mod wasm;

pub use profile::ProfileEntries;
pub use profile::ProfileEntry;
pub use profile::Profiler;
pub use decimal::parse_u32;
pub use decimal::parse_u64;
pub use decimal::u64_to_string;
