//! Tasks: dependency-aware units of work whose terminal states point back
//! at the trace that produced them.

use vstd::prelude::*;
use vstd::string::StringExecFns;
use crate::approval::{ApprovalDecision, ApprovalRequest};
use crate::binary64::{self, Binary64};
use crate::clock::{self, Timestamp};
use crate::error::TraceErr;
use crate::ids;
use crate::text;
use crate::trace::TraceRef;

verus! {

/// The lifecycle of a task. `Done`, `Failed` and `Paused` each point at a
/// trace, so every state past `Running` links back to an execution.
#[derive(Debug, Clone, PartialEq)]
pub enum TaskStatus {
    /// Waiting for dependencies or an available agent.
    Pending,
    /// Being executed by the task's assignee.
    Running,
    /// Completed; carries the execution trace.
    Done(TraceRef),
    /// Failed; carries the error and the partial trace.
    Failed { error: TraceErr, trace: TraceRef },
    /// Stopped to wait on a human decision.
    Paused(ApprovalRequest),
}

/// Scheduling priority, lowest first: `Low < Normal < High < Critical`.
#[derive(Debug, Clone, Copy, PartialEq, Eq, PartialOrd, Ord, Hash)]
pub enum Priority {
    Low,
    Normal,
    High,
    Critical,
}

impl Priority {
    /// The priority's position in `Low < Normal < High < Critical`.
    pub open spec fn rank_spec(self) -> int {
        match self {
            Priority::Low => 0,
            Priority::Normal => 1,
            Priority::High => 2,
            Priority::Critical => 3,
        }
    }

    /// The lowercase name a priority is displayed as.
    pub open spec fn name_spec(self) -> Seq<char> {
        match self {
            Priority::Low => "low"@,
            Priority::Normal => "normal"@,
            Priority::High => "high"@,
            Priority::Critical => "critical"@,
        }
    }

    /// The priority's position, as a number.
    pub fn rank(&self) -> (r: u8)
        ensures
            r == self.rank_spec(),
    {
        match self {
            Priority::Low => 0,
            Priority::Normal => 1,
            Priority::High => 2,
            Priority::Critical => 3,
        }
    }

    /// `low`, `normal`, `high` or `critical`.
    pub fn as_str(&self) -> (s: &'static str)
        ensures
            s@ == self.name_spec(),
    {
        match self {
            Priority::Low => "low",
            Priority::Normal => "normal",
            Priority::High => "high",
            Priority::Critical => "critical",
        }
    }
}

/// A serializable, dependency-aware unit of work.
#[derive(Debug, Clone)]
pub struct Task {
    pub id: u128,
    pub title: String,
    pub goal: Option<String>,
    pub status: TaskStatus,
    /// Scheduling order, highest first.
    pub priority: Priority,
    /// Confidence estimate, clamped into `[0.0, 1.0]` by `with_confidence`.
    pub confidence: Option<Binary64>,
    /// Tasks that must be `Done` before this one is ready.
    pub depends_on: Vec<u128>,
    /// The agent currently running the task.
    pub assigned_to: Option<String>,
    pub created_at: Timestamp,
    pub updated_at: Timestamp,
}

impl Task {
    /// A task with `Pending` status, `Normal` priority, a fresh random id,
    /// and nothing else recorded.
    pub fn new(title: &str) -> (t: Task)
        ensures
            t.title@ == title@,
            ids::is_random_uuid(t.id),
            t.goal is None,
            t.status is Pending,
            t.priority == Priority::Normal,
            t.confidence is None,
            t.depends_on@.len() == 0,
            t.assigned_to is None,
            t.created_at == t.updated_at,
            t.created_at.clock_reading(),
    {
        let now = clock::now();
        Task {
            id: ids::fresh_id(),
            title: title.to_owned(),
            goal: None,
            status: TaskStatus::Pending,
            priority: Priority::Normal,
            confidence: None,
            depends_on: Vec::new(),
            assigned_to: None,
            created_at: now,
            updated_at: now,
        }
    }

    /// Builder: attach a goal description.
    pub fn with_goal(self, goal: &str) -> (t: Task)
        ensures
            t.goal matches Some(g) && g@ == goal@,
            t == (Task { goal: t.goal, ..self }),
    {
        Task { goal: Some(goal.to_owned()), ..self }
    }

    /// Builder: set the scheduling priority.
    pub fn with_priority(self, priority: Priority) -> (t: Task)
        ensures
            t == (Task { priority, ..self }),
    {
        Task { priority, ..self }
    }

    /// Builder: attach a confidence estimate, clamped into `[0.0, 1.0]`.
    pub fn with_confidence(self, confidence: Binary64) -> (t: Task)
        ensures
            t == (Task { confidence: Some(binary64::clamp_unit_spec(confidence)), ..self }),
    {
        Task { confidence: Some(binary64::clamp_unit(confidence)), ..self }
    }

    /// Builder: the task must not start until `dep_id` is `Done`.
    pub fn depends_on(self, dep_id: u128) -> (t: Task)
        ensures
            t.depends_on@ == self.depends_on@.push(dep_id),
            t == (Task { depends_on: t.depends_on, ..self }),
    {
        let mut t = self;
        t.depends_on.push(dep_id);
        t
    }

    /// Assign the task to `agent` and mark it `Running`; bumps `updated_at`.
    pub fn assign_to(&mut self, agent: &str)
        ensures
            final(self).updated_at.clock_reading(),
            final(self).assigned_to matches Some(a) && a@ == agent@,
            final(self).status is Running,
            *final(self) == (Task {
                assigned_to: final(self).assigned_to,
                status: TaskStatus::Running,
                updated_at: final(self).updated_at,
                ..*old(self)
            }),
    {
        self.assigned_to = Some(agent.to_owned());
        self.status = TaskStatus::Running;
        self.updated_at = clock::now();
    }

    /// Mark the task `Done`, linking the execution trace; clears the
    /// assignee and bumps `updated_at`.
    pub fn complete(&mut self, trace_ref: TraceRef)
        ensures
            final(self).updated_at.clock_reading(),
            *final(self) == (Task {
                status: TaskStatus::Done(trace_ref),
                assigned_to: None,
                updated_at: final(self).updated_at,
                ..*old(self)
            }),
    {
        self.status = TaskStatus::Done(trace_ref);
        self.assigned_to = None;
        self.updated_at = clock::now();
    }

    /// Mark the task `Failed` with `error` and the partial trace; clears
    /// the assignee and bumps `updated_at`.
    pub fn fail(&mut self, error: TraceErr, trace_ref: TraceRef)
        ensures
            final(self).updated_at.clock_reading(),
            *final(self) == (Task {
                status: TaskStatus::Failed { error, trace: trace_ref },
                assigned_to: None,
                updated_at: final(self).updated_at,
                ..*old(self)
            }),
    {
        self.status = TaskStatus::Failed { error, trace: trace_ref };
        self.assigned_to = None;
        self.updated_at = clock::now();
    }

    /// Stop the task to wait on `request`; bumps `updated_at`.
    pub fn pause(&mut self, request: ApprovalRequest)
        ensures
            final(self).updated_at.clock_reading(),
            *final(self) == (Task {
                status: TaskStatus::Paused(request),
                updated_at: final(self).updated_at,
                ..*old(self)
            }),
    {
        self.status = TaskStatus::Paused(request);
        self.updated_at = clock::now();
    }

    /// Apply a human's decision to a paused task. An approval makes it
    /// `Pending` again; a rejection fails it with `ApprovalDenied` against
    /// the trace the human was shown. A task that is not paused is an
    /// error, and is left unchanged.
    pub fn resume(&mut self, decision: ApprovalDecision) -> (r: Result<(), TraceErr>)
        ensures
            match old(self).status {
                TaskStatus::Paused(request) => {
                    &&& r is Ok
                    &&& final(self).updated_at.clock_reading()
                    &&& match decision {
                        ApprovalDecision::Approved { .. } => *final(self) == (Task {
                            status: TaskStatus::Pending,
                            updated_at: final(self).updated_at,
                            ..*old(self)
                        }),
                        ApprovalDecision::Rejected { by, reason } => {
                            &&& denied(final(self).status, request.trace, by@, reason@)
                            &&& *final(self) == (Task {
                                status: final(self).status,
                                assigned_to: None,
                                updated_at: final(self).updated_at,
                                ..*old(self)
                            })
                        },
                    }
                },
                _ => {
                    &&& *final(self) == *old(self)
                    &&& r matches Err(e) && e.is_other_with(not_paused_message(old(self).id))
                },
            },
    {
        let trace = match &self.status {
            TaskStatus::Paused(request) => request.trace,
            _ => {
                return Err(TraceErr::other(not_paused_text(self.id).as_str()));
            },
        };
        match decision {
            ApprovalDecision::Approved { .. } => {
                self.status = TaskStatus::Pending;
                self.updated_at = clock::now();
            },
            ApprovalDecision::Rejected { by, reason } => {
                self.fail(TraceErr::approval_denied(by.as_str(), reason.as_str()), trace);
            },
        }
        Ok(())
    }

    /// True if the status is `Pending`.
    pub fn is_pending(&self) -> (b: bool)
        ensures
            b == (self.status is Pending),
    {
        matches!(self.status, TaskStatus::Pending)
    }

    /// True if the status is `Done`.
    pub fn is_done(&self) -> (b: bool)
        ensures
            b == (self.status is Done),
    {
        matches!(self.status, TaskStatus::Done(_))
    }

    /// True if the status is `Failed`.
    pub fn is_failed(&self) -> (b: bool)
        ensures
            b == (self.status is Failed),
    {
        matches!(self.status, TaskStatus::Failed { .. })
    }

    /// True if the status is `Paused`.
    pub fn is_paused(&self) -> (b: bool)
        ensures
            b == (self.status is Paused),
    {
        matches!(self.status, TaskStatus::Paused(_))
    }

    /// The question the task is waiting on, if it is paused.
    pub fn approval_request(&self) -> (r: Option<&ApprovalRequest>)
        ensures
            match self.status {
                TaskStatus::Paused(request) => r == Some(&request),
                _ => r is None,
            },
    {
        match &self.status {
            TaskStatus::Paused(request) => Some(request),
            _ => None,
        }
    }
}

/// `status` is `Failed` against `trace` with an `ApprovalDenied` error
/// naming `by` and `reason`.
pub open spec fn denied(status: TaskStatus, trace: TraceRef, by: Seq<char>, reason: Seq<char>) -> bool {
    match status {
        TaskStatus::Failed { error, trace: t } => t == trace && match error {
            TraceErr::ApprovalDenied { by: b, reason: r } => b@ == by && r@ == reason,
            _ => false,
        },
        _ => false,
    }
}

/// The error text of resuming a task that is not paused.
pub open spec fn not_paused_message(id: u128) -> Seq<char> {
    "cannot resume task "@ + ids::hyphenated_spec(id) + ": it is not paused"@
}

fn not_paused_text(id: u128) -> (s: String)
    ensures
        s@ == not_paused_message(id),
{
    let mut s = text::concat("cannot resume task ", ids::hyphenated(id).as_str());
    s.append(": it is not paused");
    s
}

} // verus!
