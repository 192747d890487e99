//! Steps and branches: the units a causal chain is made of.

use vstd::prelude::*;
use crate::binary64::{self, Binary64};
use crate::clock::{self, Timestamp};
use crate::cost::StepCost;
use crate::duration::Duration;
use crate::ids;

verus! {

/// How a step ended.
#[derive(Debug, Clone, PartialEq)]
pub enum StepOutcome {
    /// Completed and produced a value.
    Taken,
    /// Explicitly abandoned via `reject()`.
    Rejected { reason: String },
    /// Failed with an error.
    Failed { message: String },
}

/// A single unit of reasoning. Every observation, branch and emission of
/// an agent appends one of these to its trace.
#[derive(Debug, Clone, PartialEq)]
pub struct Step {
    /// Random identifier assigned by [`Step::named`].
    pub id: u128,
    pub name: String,
    /// Confidence score, clamped into `[0.0, 1.0]` by `with_confidence`.
    pub confidence: Option<Binary64>,
    pub duration: Option<Duration>,
    pub started_at: Timestamp,
    pub outcome: StepOutcome,
    /// Candidate paths considered for this step. `speculate` records one
    /// per candidate: the winner `Taken`, the rest `Rejected`.
    pub branches: Vec<Branch>,
    pub notes: Option<String>,
    /// What this step cost to produce, if the caller recorded it.
    pub cost: Option<StepCost>,
}

/// How a considered branch ended.
#[derive(Debug, Clone, PartialEq)]
pub enum BranchOutcome {
    /// This branch was selected.
    Taken,
    /// This branch was considered but discarded.
    Rejected { reason: String },
}

/// A path that was considered — taken or rejected.
#[derive(Debug, Clone, PartialEq)]
pub struct Branch {
    pub id: u128,
    pub label: String,
    pub outcome: BranchOutcome,
    /// Confidence score in `[0.0, 1.0]`.
    pub confidence: Option<Binary64>,
}

impl Step {
    /// True if this step's outcome is `Rejected`.
    pub open spec fn rejected_spec(self) -> bool {
        self.outcome is Rejected
    }

    /// True if this step's outcome is `Failed`.
    pub open spec fn failed_spec(self) -> bool {
        self.outcome is Failed
    }

    /// A new step named `name`, outcome `Taken`, timestamped now, with
    /// nothing else recorded.
    pub fn named(name: &str) -> (s: Step)
        ensures
            s.name@ == name@,
            ids::is_random_uuid(s.id),
            s.started_at.clock_reading(),
            s.confidence is None,
            s.duration is None,
            s.outcome is Taken,
            s.branches@.len() == 0,
            s.notes is None,
            s.cost is None,
    {
        Step {
            id: ids::fresh_id(),
            name: name.to_owned(),
            confidence: None,
            duration: None,
            started_at: clock::now(),
            outcome: StepOutcome::Taken,
            branches: Vec::new(),
            notes: None,
            cost: None,
        }
    }

    /// Builder: attach a confidence score, clamped into `[0.0, 1.0]`.
    pub fn with_confidence(self, confidence: Binary64) -> (s: Step)
        ensures
            s == (Step { confidence: Some(binary64::clamp_unit_spec(confidence)), ..self }),
    {
        Step { confidence: Some(binary64::clamp_unit(confidence)), ..self }
    }

    /// Builder: record how long the step took.
    pub fn with_duration(self, duration: Duration) -> (s: Step)
        ensures
            s == (Step { duration: Some(duration), ..self }),
    {
        Step { duration: Some(duration), ..self }
    }

    /// Builder: attach a free-text note.
    pub fn with_note(self, note: &str) -> (s: Step)
        ensures
            s.notes matches Some(n) && n@ == note@,
            s == (Step { notes: s.notes, ..self }),
    {
        Step { notes: Some(note.to_owned()), ..self }
    }

    /// Builder: record what the step cost.
    pub fn with_cost(self, cost: StepCost) -> (s: Step)
        ensures
            s == (Step { cost: Some(cost), ..self }),
    {
        Step { cost: Some(cost), ..self }
    }

    /// Builder: mark the step `Rejected` with `reason`.
    pub fn rejected(self, reason: &str) -> (s: Step)
        ensures
            s.outcome matches StepOutcome::Rejected { reason: r } && r@ == reason@,
            s == (Step { outcome: s.outcome, ..self }),
    {
        Step { outcome: StepOutcome::Rejected { reason: reason.to_owned() }, ..self }
    }

    /// Builder: mark the step `Failed` with `message`.
    pub fn failed(self, message: &str) -> (s: Step)
        ensures
            s.outcome matches StepOutcome::Failed { message: m } && m@ == message@,
            s == (Step { outcome: s.outcome, ..self }),
    {
        Step { outcome: StepOutcome::Failed { message: message.to_owned() }, ..self }
    }

    /// True if the outcome is `Rejected`.
    pub fn is_rejected(&self) -> (b: bool)
        ensures
            b == self.rejected_spec(),
    {
        matches!(self.outcome, StepOutcome::Rejected { .. })
    }

    /// True if the outcome is `Failed`.
    pub fn is_failed(&self) -> (b: bool)
        ensures
            b == self.failed_spec(),
    {
        matches!(self.outcome, StepOutcome::Failed { .. })
    }
}

impl Branch {
    /// A branch marked `Taken`: the winning candidate.
    pub fn taken(label: &str) -> (b: Branch)
        ensures
            b.label@ == label@,
            b.outcome is Taken,
            b.confidence is None,
            ids::is_random_uuid(b.id),
    {
        Branch {
            id: ids::fresh_id(),
            label: label.to_owned(),
            outcome: BranchOutcome::Taken,
            confidence: None,
        }
    }

    /// A branch marked `Rejected` with `reason`: a losing candidate.
    pub fn rejected(label: &str, reason: &str) -> (b: Branch)
        ensures
            b.label@ == label@,
            b.outcome matches BranchOutcome::Rejected { reason: r } && r@ == reason@,
            b.confidence is None,
            ids::is_random_uuid(b.id),
    {
        Branch {
            id: ids::fresh_id(),
            label: label.to_owned(),
            outcome: BranchOutcome::Rejected { reason: reason.to_owned() },
            confidence: None,
        }
    }

    /// Builder: attach a confidence score, clamped into `[0.0, 1.0]`.
    pub fn with_confidence(self, confidence: Binary64) -> (b: Branch)
        ensures
            b == (Branch { confidence: Some(binary64::clamp_unit_spec(confidence)), ..self }),
    {
        Branch { confidence: Some(binary64::clamp_unit(confidence)), ..self }
    }
}

} // verus!
