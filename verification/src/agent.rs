//! Per-run agent state, escalation actions, and the decisions `spawn`,
//! `delegate` and `run_with_escalation` make between agent runs.

use vstd::prelude::*;
use crate::approval::ApprovalRequest;
use crate::binary64::Binary64;
use crate::error::TraceErr;
use crate::trace::{Trace, TraceRef};

verus! {

/// The text views of a list of names.
pub open spec fn names(v: Seq<String>) -> Seq<Seq<char>> {
    v.map_values(|s: String| s@)
}

/// Per-run state threaded through an agent's run: steps taken against the
/// declared budget, and the delegation chain — the agents that handed off
/// execution to reach this point, oldest first.
#[derive(Debug, Clone)]
pub struct AgentContext {
    pub agent_name: String,
    pub steps_taken: usize,
    pub budget: Option<usize>,
    pub delegation_chain: Vec<String>,
}

impl AgentContext {
    /// Steps left before the budget is exhausted, never below zero;
    /// `None` without a budget.
    pub open spec fn remaining_spec(self) -> Option<usize> {
        match self.budget {
            Some(b) => Some(if self.steps_taken >= b {
                0usize
            } else {
                (b - self.steps_taken) as usize
            }),
            None => None,
        }
    }

    /// The declared budget has been reached.
    pub open spec fn exhausted_spec(self) -> bool {
        match self.budget {
            Some(b) => self.steps_taken >= b,
            None => false,
        }
    }

    /// A fresh context for `agent_name`: no steps taken, and a chain that
    /// holds only the agent itself.
    pub fn new(agent_name: &str, budget: Option<usize>) -> (c: AgentContext)
        ensures
            c.agent_name@ == agent_name@,
            c.steps_taken == 0,
            c.budget == budget,
            names(c.delegation_chain@) == seq![agent_name@],
    {
        let mut chain: Vec<String> = Vec::new();
        chain.push(agent_name.to_owned());
        proof {
            assert(names(chain@) =~= seq![agent_name@]);
        }
        AgentContext {
            agent_name: agent_name.to_owned(),
            steps_taken: 0,
            budget,
            delegation_chain: chain,
        }
    }

    /// Record that a step was taken. Errors with `BudgetExhausted` (naming
    /// the new step count) once the count exceeds the budget; the step is
    /// counted either way.
    pub fn record_step(&mut self) -> (r: Result<(), TraceErr>)
        requires
            old(self).steps_taken < usize::MAX,
        ensures
            final(self).steps_taken == old(self).steps_taken + 1,
            final(self).agent_name == old(self).agent_name,
            final(self).budget == old(self).budget,
            final(self).delegation_chain == old(self).delegation_chain,
            match old(self).budget {
                Some(b) if old(self).steps_taken + 1 > b => r == Err::<(), TraceErr>(
                    TraceErr::BudgetExhausted { steps: final(self).steps_taken },
                ),
                _ => r is Ok,
            },
    {
        self.steps_taken = self.steps_taken + 1;
        if let Some(budget) = self.budget {
            if self.steps_taken > budget {
                return Err(TraceErr::BudgetExhausted { steps: self.steps_taken });
            }
        }
        Ok(())
    }

    /// Steps left before the budget is exhausted (saturating at zero);
    /// `None` without a budget.
    pub fn budget_remaining(&self) -> (r: Option<usize>)
        ensures
            r == self.remaining_spec(),
    {
        match self.budget {
            Some(b) => Some(b.saturating_sub(self.steps_taken)),
            None => None,
        }
    }

    /// True once the step count has reached the declared budget.
    pub fn is_budget_exhausted(&self) -> (b: bool)
        ensures
            b == self.exhausted_spec(),
    {
        match self.budget {
            Some(b) => self.steps_taken >= b,
            None => false,
        }
    }

    /// This context's delegation chain with `next_agent` appended; the
    /// context itself is unchanged.
    pub fn extend_chain(&self, next_agent: &str) -> (chain: Vec<String>)
        ensures
            names(chain@) == names(self.delegation_chain@).push(next_agent@),
    {
        let mut chain: Vec<String> = Vec::new();
        let mut i: usize = 0;
        while i < self.delegation_chain.len()
            invariant
                i <= self.delegation_chain@.len(),
                names(chain@) == names(self.delegation_chain@.take(i as int)),
            decreases self.delegation_chain@.len() - i,
        {
            chain.push(self.delegation_chain[i].clone());
            proof {
                assert(self.delegation_chain@.take(i as int + 1) =~= self.delegation_chain@.take(
                    i as int,
                ).push(self.delegation_chain@[i as int]));
                assert(names(self.delegation_chain@.take(i as int + 1)) =~= names(
                    self.delegation_chain@.take(i as int),
                ).push(self.delegation_chain@[i as int]@));
                assert(names(chain@) =~= names(self.delegation_chain@.take(i as int + 1)));
            }
            i = i + 1;
        }
        let ghost before = chain@;
        chain.push(next_agent.to_owned());
        proof {
            assert(self.delegation_chain@.take(i as int) =~= self.delegation_chain@);
            assert(names(chain@) =~= names(before).push(next_agent@));
        }
        chain
    }

    /// The context a delegated run starts with: the delegatee's name and
    /// budget, no steps taken, and `from`'s chain extended by the delegatee.
    pub fn delegated(from: &AgentContext, agent_name: &str, budget: Option<usize>) -> (c: AgentContext)
        ensures
            c.agent_name@ == agent_name@,
            c.steps_taken == 0,
            c.budget == budget,
            names(c.delegation_chain@) == names(from.delegation_chain@).push(agent_name@),
    {
        AgentContext {
            agent_name: agent_name.to_owned(),
            steps_taken: 0,
            budget,
            delegation_chain: from.extend_chain(agent_name),
        }
    }
}

/// The declarative outcome of a lifecycle hook: what should happen, for
/// the caller to carry out.
#[derive(Debug, Clone, PartialEq)]
pub enum EscalationAction {
    /// No escalation: proceed as normal.
    Proceed,
    /// Hand off to the agent registered under this name.
    Delegate(String),
    /// Abort with this error rather than escalating further.
    Emit(TraceErr),
    /// Stop and wait for a human; no agent can discharge this.
    RequireApproval(ApprovalRequest),
}

impl EscalationAction {
    /// No agent can discharge this action: it needs a human, or it is a
    /// terminal error.
    pub open spec fn needs_human_spec(self) -> bool {
        self is RequireApproval || self is Emit
    }

    /// True for `Proceed`: no escalation recommended.
    pub fn is_none(&self) -> (b: bool)
        ensures
            b == (*self is Proceed),
    {
        matches!(self, EscalationAction::Proceed)
    }

    /// The delegation target's name, for `Delegate`.
    pub fn delegate_target(&self) -> (r: Option<&str>)
        ensures
            match *self {
                EscalationAction::Delegate(name) => r matches Some(n) && n@ == name@,
                _ => r is None,
            },
    {
        match self {
            EscalationAction::Delegate(name) => Some(name.as_str()),
            _ => None,
        }
    }

    /// The question awaiting a human, for `RequireApproval`.
    pub fn approval_request(&self) -> (r: Option<&ApprovalRequest>)
        ensures
            match *self {
                EscalationAction::RequireApproval(request) => r == Some(&request),
                _ => r is None,
            },
    {
        match self {
            EscalationAction::RequireApproval(request) => Some(request),
            _ => None,
        }
    }

    /// True if no agent in any registry can discharge this action.
    pub fn needs_a_human(&self) -> (b: bool)
        ensures
            b == self.needs_human_spec(),
    {
        matches!(self, EscalationAction::RequireApproval(_) | EscalationAction::Emit(_))
    }
}

/// Which lifecycle hook a finished run calls for.
#[derive(Debug, Clone, Copy, PartialEq, Eq)]
pub enum Hook {
    /// Nothing went wrong: no hook.
    Healthy,
    /// The run failed with `BudgetExhausted`: `on_budget_exceeded`.
    BudgetExceeded,
    /// The run failed with any other error: `on_step_failure`.
    StepFailure,
    /// The run succeeded but a step scored below the agent's threshold:
    /// `on_low_confidence`.
    LowConfidence,
}

/// The hook a run with outcome (`error`, `any_below`) calls for.
pub open spec fn hook_spec(error: Option<TraceErr>, any_below: bool) -> Hook {
    match error {
        Some(TraceErr::BudgetExhausted { .. }) => Hook::BudgetExceeded,
        Some(_) => Hook::StepFailure,
        None => if any_below {
            Hook::LowConfidence
        } else {
            Hook::Healthy
        },
    }
}

/// Which hook `trace` calls for, for an agent whose confidence threshold
/// is `threshold`: a budget error, any other error, a step scored below the
/// threshold, in that order of precedence.
pub fn hook_for<T>(trace: &Trace<T>, threshold: Binary64) -> (h: Hook)
    ensures
        h == hook_spec(
            trace.error_spec(),
            crate::trace::below_of(trace.chain(), threshold).len() > 0,
        ),
{
    match trace.error() {
        Some(TraceErr::BudgetExhausted { .. }) => Hook::BudgetExceeded,
        Some(_) => Hook::StepFailure,
        None => {
            let below = trace.low_confidence_below(threshold);
            proof {
                assert(crate::trace::derefs(below@).len() == below@.len());
            }
            if below.len() > 0 {
                Hook::LowConfidence
            } else {
                Hook::Healthy
            }
        },
    }
}

/// The action a hook returned, as handed back to the caller: a
/// `RequireApproval` raised inside a hook (which cannot see its trace) is
/// stamped with the trace that produced it, unless it already names one.
pub fn stamp(action: EscalationAction, trace: TraceRef) -> (a: EscalationAction)
    ensures
        match action {
            EscalationAction::RequireApproval(request) => a matches EscalationAction::RequireApproval(
                r,
            ) && r == (ApprovalRequest {
                trace: if request.attached_spec() {
                    request.trace
                } else {
                    trace
                },
                ..request
            }),
            _ => a == action,
        },
{
    match action {
        EscalationAction::RequireApproval(request) => {
            let mut request = request;
            request.attach(trace);
            EscalationAction::RequireApproval(request)
        },
        other => other,
    }
}

/// The result of running an agent: its trace, the context it ran under,
/// and the escalation its hooks recommended.
#[derive(Debug)]
pub struct SpawnOutcome<O> {
    pub trace: Trace<O>,
    pub context: AgentContext,
    pub escalation: EscalationAction,
}

/// The result of a run that may have hopped across agents via delegation.
#[derive(Debug)]
pub struct RunOutcome<O> {
    pub trace: Trace<O>,
    pub context: AgentContext,
    /// The escalation still pending when the run stopped, if any.
    pub unresolved: Option<EscalationAction>,
}

impl<O> RunOutcome<O> {
    /// The question the run stopped to ask a human, if it stopped on a
    /// `RequireApproval` escalation.
    pub fn approval_request(&self) -> (r: Option<&ApprovalRequest>)
        ensures
            match self.unresolved {
                Some(EscalationAction::RequireApproval(request)) => r == Some(&request),
                _ => r is None,
            },
    {
        match &self.unresolved {
            Some(e) => e.approval_request(),
            None => None,
        }
    }
}

/// What the delegation loop does after a run.
#[derive(Debug, Clone, PartialEq)]
pub enum Hop {
    /// Stop, handing back this escalation as unresolved (if any).
    Stop(Option<EscalationAction>),
    /// Run the agent registered under this name on the same input.
    Delegate(String),
}

/// The loop's decision after a run that recommended `escalation`, with
/// `hops` delegations made so far out of at most `max_hops`, where
/// `target_known` tells whether the registry holds the delegation target.
///
/// Only `Delegate` can be resolved. `RequireApproval` and `Emit` stop the
/// loop and are handed back; `Proceed` stops it cleanly. A `Delegate` stops it
/// too, handed back unresolved, once the hop limit is reached or when
/// nobody is registered under the name.
pub fn next_hop(escalation: EscalationAction, hops: usize, max_hops: usize, target_known: bool) -> (h: Hop)
    ensures
        match escalation {
            EscalationAction::Delegate(name) => if hops < max_hops && target_known {
                h matches Hop::Delegate(n) && n@ == name@
            } else {
                h == Hop::Stop(Some(escalation))
            },
            EscalationAction::Proceed => h == Hop::Stop(None),
            _ => h == Hop::Stop(Some(escalation)),
        },
        h is Delegate ==> hops < max_hops,
{
    match escalation {
        EscalationAction::Delegate(name) => {
            if hops < max_hops && target_known {
                Hop::Delegate(name)
            } else {
                Hop::Stop(Some(EscalationAction::Delegate(name)))
            }
        },
        EscalationAction::Proceed => Hop::Stop(None),
        other => Hop::Stop(Some(other)),
    }
}

} // verus!
