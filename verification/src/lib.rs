//! Reasoning provenance as a first-class value.

pub mod binary64;
pub mod ids;
pub mod clock;
pub mod duration;
pub mod text;
pub mod error;
pub mod cost;
pub mod step;
pub mod ordering;
pub mod trace;
pub mod approval;
pub mod graph;
pub mod task;
pub mod registry;
pub mod agent;
pub mod contract;
pub mod speculate;
pub mod assertions;
pub mod inspect;
pub mod render;
pub mod span;
pub mod checkpoint;
pub mod cli;
pub mod laws;

pub use agent::{AgentContext, EscalationAction, Hook, Hop, RunOutcome, SpawnOutcome};
pub use approval::{ApprovalDecision, ApprovalRequest};
pub use assertions::{TraceAssertionError, TraceOutcome};
pub use checkpoint::FileCheckpointStore;
pub use cli::{Cli, Command};
pub use contract::Contract;
pub use cost::StepCost;
pub use duration::Duration;
pub use error::TraceErr;
pub use graph::{TraceGraph, TraceNode};
pub use inspect::{ChainReport, DiffReport, StatusChange, StatusFilter, TaskSummary};
pub use registry::TaskRegistry;
pub use span::Span;
pub use step::{Branch, BranchOutcome, Step, StepOutcome};
pub use task::{Priority, Task, TaskStatus};
pub use trace::{Trace, TraceRef};
