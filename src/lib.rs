//! A benchmarking harness: repeated timed runs of a program, their statistics,
//! a flat-file history of past results, and reports of that history.
//!
//! Durations are whole nanoseconds throughout; the store and the reports write
//! them as decimal seconds.
use vstd::prelude::*;

pub mod config;
pub mod database;
pub mod output;
pub mod runner;
pub mod stats;
pub mod text;

pub use config::{Config, ConfigError, FilterMode};
pub use database::{Database, DbError, Entry, EntryError, DB_HEADER};
pub use output::{escape_csv, escape_json, escape_xml, write_output, OutputError, OutputFormat, Report};
pub use runner::{Batch, ExecError, RunOutcome};
pub use stats::statistics;

verus! {

} // verus!
