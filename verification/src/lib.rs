//! Measurements of benchmarked programs: reading them, comparing them, and
//! laying out reports.
//!
//! - [`scan`]: finding a label in a text and reading the number behind it.
//! - [`metrics`]: the measurement record and the parser of a program's report.
//! - [`report_text`]: the plain form of a report, which the parser reads back.
//! - [`comparison`]: speedups of implementations against a baseline.
//! - [`ranking`]: ordering measurements, fastest first.
//! - [`reporter`]: headings and tables of the reports.
//! - [`fibonacci`], [`primes`]: two of the measured workloads.
//!
//! Every function is verified against its contract. The library holds no
//! floating-point number: durations are whole microseconds, a speedup is the
//! exact ratio of two durations, and the tables take their numbers as text.
pub mod comparison;
pub mod fibonacci;
pub mod metrics;
pub mod primes;
pub mod ranking;
pub mod report_text;
pub mod reporter;
pub mod scan;

pub use metrics::{parse_benchmark_output, BenchmarkResult};
