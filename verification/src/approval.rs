//! Stop-the-world questions to a human, and the answers that come back.

use vstd::prelude::*;
use crate::clock::{self, Timestamp};
use crate::ids;
use crate::trace::TraceRef;

verus! {

#[verifier::external_type_specification]
#[verifier::external_body]
pub struct ExJsonValue(serde_json::Value);

/// `serde_json::Value`'s derived `Clone`. Nothing is claimed of the copy:
/// the library never inspects a context.
pub assume_specification[ <serde_json::Value as Clone>::clone ](v: &serde_json::Value) -> serde_json::Value;

/// The JSON `null` an unannotated request carries as its context.
///
/// Builds `serde_json::Value::Null`. Nothing is claimed of the value: the
/// library only carries the context through.
#[verifier::external_body]
fn json_null() -> (v: serde_json::Value) {
    serde_json::Value::Null
}

/// A question a pipeline stopped to ask a human.
///
/// The request carries the [`TraceRef`] of the partial trace that reached
/// the pause, so an approver never decides without the provenance that led
/// there.
#[derive(Debug, Clone, PartialEq)]
pub struct ApprovalRequest {
    /// Stable id, so an out-of-band channel can correlate its answer.
    pub id: u128,
    /// What the human is being asked.
    pub question: String,
    /// What the agent wants the human to see alongside the question;
    /// JSON `null` when nothing was attached.
    pub context: serde_json::Value,
    /// The partial trace that reached the pause; the nil reference while
    /// unattached.
    pub trace: TraceRef,
    pub requested_at: Timestamp,
}

impl ApprovalRequest {
    /// True if the request points at a real trace rather than the nil
    /// placeholder.
    pub open spec fn attached_spec(self) -> bool {
        self.trace.0 != 0
    }

    /// Ask `question` about the run recorded in `trace`, timestamped now.
    pub fn new(question: &str, trace: TraceRef) -> (r: ApprovalRequest)
        ensures
            r.question@ == question@,
            r.trace == trace,
            ids::is_random_uuid(r.id),
            r.requested_at.clock_reading(),
    {
        ApprovalRequest {
            id: ids::fresh_id(),
            question: question.to_owned(),
            context: json_null(),
            trace,
            requested_at: clock::now(),
        }
    }

    /// A request raised where the trace is not yet known (inside a
    /// lifecycle hook). It points at the nil reference until
    /// [`Self::attach`] stamps it.
    pub fn unattached(question: &str) -> (r: ApprovalRequest)
        ensures
            r.question@ == question@,
            r.trace == TraceRef(0),
            !r.attached_spec(),
            ids::is_random_uuid(r.id),
            r.requested_at.clock_reading(),
    {
        ApprovalRequest::new(question, TraceRef(0))
    }

    /// True if the request points at a real trace.
    pub fn is_attached(&self) -> (b: bool)
        ensures
            b == self.attached_spec(),
    {
        self.trace.0 != 0
    }

    /// Point the request at `trace`, only if it is still unattached; a
    /// request that already names its trace is left alone.
    pub fn attach(&mut self, trace: TraceRef)
        ensures
            final(self).trace == (if old(self).attached_spec() {
                old(self).trace
            } else {
                trace
            }),
            final(self).id == old(self).id,
            final(self).question == old(self).question,
            final(self).context == old(self).context,
            final(self).requested_at == old(self).requested_at,
    {
        if !self.is_attached() {
            self.trace = trace;
        }
    }

    /// Builder: attach the context a human needs to answer.
    pub fn with_context(self, context: serde_json::Value) -> (r: ApprovalRequest)
        ensures
            r == (ApprovalRequest { context, ..self }),
    {
        ApprovalRequest { context, ..self }
    }

    /// How long the request had been waiting at `now`, in nanoseconds.
    pub fn age_at(&self, now: &Timestamp) -> (d: i128)
        ensures
            d == now.total_nanos() - self.requested_at.total_nanos(),
    {
        now.nanos_since(&self.requested_at)
    }

    /// How long the request has been waiting, as of the current clock, in
    /// nanoseconds.
    pub fn age(&self) -> (d: i128)
        ensures
            exists|now: Timestamp|
                now.clock_reading() && #[trigger] now.total_nanos() - self.requested_at.total_nanos()
                    == d,
    {
        let now = clock::now();
        self.age_at(&now)
    }
}

/// A human's answer to an [`ApprovalRequest`]. Both variants record who
/// decided.
#[derive(Debug, Clone, PartialEq)]
pub enum ApprovalDecision {
    /// Proceed: the paused work becomes schedulable again.
    Approved { by: String, note: Option<String> },
    /// Do not proceed: the paused work terminates as failed.
    Rejected { by: String, reason: String },
}

impl ApprovalDecision {
    /// Who made the decision.
    pub open spec fn decider(self) -> Seq<char> {
        match self {
            ApprovalDecision::Approved { by, .. } => by@,
            ApprovalDecision::Rejected { by, .. } => by@,
        }
    }

    /// Approve with no further comment.
    pub fn approve(by: &str) -> (d: ApprovalDecision)
        ensures
            d matches ApprovalDecision::Approved { by: b, note } && b@ == by@ && note is None,
    {
        ApprovalDecision::Approved { by: by.to_owned(), note: None }
    }

    /// Approve, recording a note alongside the decision.
    pub fn approve_with_note(by: &str, note: &str) -> (d: ApprovalDecision)
        ensures
            d matches ApprovalDecision::Approved { by: b, note: Some(n) } && b@ == by@ && n@
                == note@,
    {
        ApprovalDecision::Approved { by: by.to_owned(), note: Some(note.to_owned()) }
    }

    /// Reject, recording why.
    pub fn reject(by: &str, reason: &str) -> (d: ApprovalDecision)
        ensures
            d matches ApprovalDecision::Rejected { by: b, reason: r } && b@ == by@ && r@
                == reason@,
    {
        ApprovalDecision::Rejected { by: by.to_owned(), reason: reason.to_owned() }
    }

    /// True if the decision was to proceed.
    pub fn is_approved(&self) -> (b: bool)
        ensures
            b == (*self is Approved),
    {
        matches!(self, ApprovalDecision::Approved { .. })
    }

    /// Who made the decision.
    pub fn decided_by(&self) -> (s: &str)
        ensures
            s@ == self.decider(),
    {
        match self {
            ApprovalDecision::Approved { by, .. } => by.as_str(),
            ApprovalDecision::Rejected { by, .. } => by.as_str(),
        }
    }
}

} // verus!
