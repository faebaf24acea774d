//! Configuration carried by the batch commands. The command-line surface
//! itself lives outside the library; these structs hold the already-parsed
//! options as plain values.

use vstd::prelude::*;

verus! {

/// Options of the session-inspection command.
#[derive(Debug, Clone)]
pub struct InfoCli {
    /// Path of the side-table document to read (the caller supplies its
    /// default).
    pub trace_file: Option<String>,
    /// Path of the binary record file to read.
    pub data_file: Option<String>,
    /// Whether to list every event.
    pub list: bool,
    /// Whether to show per-object statistics.
    pub stats: bool,
}

/// Options of the trace-capture command.
#[derive(Debug, Clone)]
pub struct TraceCli {
    /// Path the captured trace is written to.
    pub output: Option<String>,
    /// Additional profiler events to capture.
    pub events: Vec<String>,
    /// The command to run under the tracer.
    pub command: Vec<String>,
}

} // verus!
