//! Batch cleaner for raw delimited telemetry records.
//!
//! Records are parsed from comma-separated lines, validated, grouped by an
//! integer identifier, ordered by timestamp within each group, and rendered
//! one line per record for per-identifier output files.

use vstd::prelude::*;

pub mod aggregate;
pub mod datetime;
pub mod digits;
pub mod pipeline;
pub mod record;
pub mod render;
pub mod sort;
pub mod text;

verus! {

/// Run configuration: one or more input roots and one output directory.
pub struct Config {
    /// Root directories to scan for input files.
    pub input_dir: Vec<String>,
    /// Directory that receives one file per identifier.
    pub output_dir: String,
}

} // verus!
