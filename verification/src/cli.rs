//! The inspector's command line, as plain values.

use vstd::prelude::*;
use crate::inspect::StatusFilter;

verus! {

/// Inspect checkpoint files.
#[derive(Debug, Clone)]
pub struct Cli {
    pub command: Command,
}

/// One inspector command. Every command can emit JSON instead of a table.
#[derive(Debug, Clone)]
pub enum Command {
    /// List the tasks in a checkpoint, optionally only those in one state.
    List { checkpoint: String, status: Option<StatusFilter>, json: bool },
    /// Show one task in full; `task` is an id or an unambiguous prefix.
    Show { checkpoint: String, task: String, json: bool },
    /// Find the task a trace belongs to, and what it waited on.
    Chain { checkpoint: String, trace: String, json: bool },
    /// Compare two checkpoints of the same pipeline.
    Diff { before: String, after: String, json: bool },
}

} // verus!
