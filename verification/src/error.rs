//! Named failures.

use vstd::prelude::*;
use vstd::string::StringExecFns;
use crate::binary64::Binary64;
use crate::duration::{self, Duration};
use crate::ids;
use crate::text;

verus! {

/// Every failure in a trace is one of these named variants. There are no
/// silent panics: a failing step produces a `TraceErr` that propagates like
/// the error of a `Result`.
#[derive(Debug, Clone, PartialEq)]
pub enum TraceErr {
    /// A step called `reject()`: the branch was explicitly abandoned.
    Rejected(String),
    /// An external tool call returned an error.
    ToolFailed { tool: String, message: String },
    /// The agent exceeded its declared step budget.
    BudgetExhausted { steps: usize },
    /// A delegated agent returned an error; `trace_id` is that agent's trace.
    DelegationFailed { trace_id: u128, message: String },
    /// A step's confidence fell below the agent's threshold.
    LowConfidence { score: Binary64, threshold: Binary64 },
    /// A step exceeded its time limit.
    Timeout { duration: Duration },
    /// A checkpoint could not be serialized or deserialized.
    Serde(String),
    /// A step completed but its output broke a declared invariant.
    ContractViolated { message: String },
    /// A human was asked to approve paused work and said no.
    ApprovalDenied { by: String, reason: String },
    /// Anything that fits no other variant.
    Other(String),
}

impl TraceErr {
    /// True if this is `Other` carrying exactly `message`.
    pub open spec fn is_other_with(self, message: Seq<char>) -> bool {
        self matches TraceErr::Other(m) && m@ == message
    }

    /// A `Rejected` error carrying `reason`.
    pub fn rejected(reason: &str) -> (e: TraceErr)
        ensures
            e matches TraceErr::Rejected(r) && r@ == reason@,
    {
        TraceErr::Rejected(reason.to_owned())
    }

    /// A `ToolFailed` error naming the tool and its failure message.
    pub fn tool_failed(tool: &str, message: &str) -> (e: TraceErr)
        ensures
            e matches TraceErr::ToolFailed { tool: t, message: m } && t@ == tool@ && m@
                == message@,
    {
        TraceErr::ToolFailed { tool: tool.to_owned(), message: message.to_owned() }
    }

    /// The catch-all `Other` error.
    pub fn other(message: &str) -> (e: TraceErr)
        ensures
            e.is_other_with(message@),
    {
        TraceErr::Other(message.to_owned())
    }

    /// A `ContractViolated` error describing the broken invariant.
    pub fn contract_violated(message: &str) -> (e: TraceErr)
        ensures
            e matches TraceErr::ContractViolated { message: m } && m@ == message@,
    {
        TraceErr::ContractViolated { message: message.to_owned() }
    }

    /// An `ApprovalDenied` error recording who said no, and why.
    pub fn approval_denied(by: &str, reason: &str) -> (e: TraceErr)
        ensures
            e matches TraceErr::ApprovalDenied { by: b, reason: r } && b@ == by@ && r@
                == reason@,
    {
        TraceErr::ApprovalDenied { by: by.to_owned(), reason: reason.to_owned() }
    }
}

/// The text an error is displayed as; `None` for `LowConfidence`, whose
/// scores are rendered to two decimals by binary64 formatting this library
/// does not do.
pub open spec fn text_spec(e: TraceErr) -> Option<Seq<char>> {
    match e {
        TraceErr::Rejected(r) => Some("rejected: "@ + r@),
        TraceErr::ToolFailed { tool, message } => Some(
            "tool failed: "@ + tool@ + " \u{2014} "@ + message@,
        ),
        TraceErr::BudgetExhausted { steps } => Some(
            "budget exhausted after "@ + text::decimal_spec(steps as nat) + " steps"@,
        ),
        TraceErr::DelegationFailed { trace_id, message } => Some(
            "delegation failed (trace "@ + ids::hyphenated_spec(trace_id) + "): "@ + message@,
        ),
        TraceErr::LowConfidence { .. } => None,
        TraceErr::Timeout { duration } => Some(
            "step timed out after "@ + duration::debug_text(duration@),
        ),
        TraceErr::Serde(s) => Some("serialization error: "@ + s@),
        TraceErr::ContractViolated { message } => Some("contract violated: "@ + message@),
        TraceErr::ApprovalDenied { by, reason } => Some(
            "approval denied by "@ + by@ + ": "@ + reason@,
        ),
        TraceErr::Other(s) => Some(s@),
    }
}

impl TraceErr {
    /// The error's display text; `None` for `LowConfidence` (see
    /// [`text_spec`]).
    pub fn to_text(&self) -> (r: Option<String>)
        ensures
            match r {
                Some(s) => text_spec(*self) == Some(s@),
                None => text_spec(*self) is None,
            },
    {
        match self {
            TraceErr::Rejected(r) => Some(text::concat("rejected: ", r.as_str())),
            TraceErr::ToolFailed { tool, message } => {
                let mut s = text::concat("tool failed: ", tool.as_str());
                s.append(" \u{2014} ");
                s.append(message.as_str());
                Some(s)
            },
            TraceErr::BudgetExhausted { steps } => {
                let mut s = text::concat("budget exhausted after ", text::decimal(*steps as u64).as_str());
                s.append(" steps");
                Some(s)
            },
            TraceErr::DelegationFailed { trace_id, message } => {
                let mut s = text::concat("delegation failed (trace ", ids::hyphenated(*trace_id).as_str());
                s.append("): ");
                s.append(message.as_str());
                Some(s)
            },
            TraceErr::LowConfidence { .. } => None,
            TraceErr::Timeout { duration } => Some(
                text::concat("step timed out after ", duration.debug_string().as_str()),
            ),
            TraceErr::Serde(m) => Some(text::concat("serialization error: ", m.as_str())),
            TraceErr::ContractViolated { message } => Some(
                text::concat("contract violated: ", message.as_str()),
            ),
            TraceErr::ApprovalDenied { by, reason } => {
                let mut s = text::concat("approval denied by ", by.as_str());
                s.append(": ");
                s.append(reason.as_str());
                Some(s)
            },
            TraceErr::Other(m) => Some(m.clone()),
        }
    }
}

} // verus!
