use trace_lang::agent::{hook_for, next_hop, stamp};
use trace_lang::contract::{contract_step, violation};
use trace_lang::speculate::{first_max_index, speculation_step};
use trace_lang::{
    AgentContext, ApprovalRequest, BranchOutcome, Contract, EscalationAction, Hook, Hop, Step,
    StepOutcome, Trace, TraceErr, TraceRef,
};

fn bits(x: f64) -> u64 {
    x.to_bits()
}

#[test]
fn new_context_starts_at_zero_steps_with_a_singleton_chain() {
    let ctx = AgentContext::new("probe", Some(5));
    assert_eq!(ctx.steps_taken, 0);
    assert_eq!(ctx.delegation_chain, vec!["probe"]);
    assert!(!ctx.is_budget_exhausted());
}

#[test]
fn record_step_without_a_budget_never_errors() {
    let mut ctx = AgentContext::new("probe", None);
    for _ in 0..1000 {
        ctx.record_step().expect("no budget means no limit");
    }
    assert_eq!(ctx.budget_remaining(), None);
    assert!(!ctx.is_budget_exhausted());
}

#[test]
fn record_step_errors_exactly_one_step_past_budget() {
    let mut ctx = AgentContext::new("probe", Some(2));
    ctx.record_step().expect("first step is within budget");
    assert!(!ctx.is_budget_exhausted());
    ctx.record_step().expect("second step reaches budget exactly");
    assert!(ctx.is_budget_exhausted());
    let err = ctx.record_step().expect_err("third step exceeds budget");
    assert!(matches!(err, TraceErr::BudgetExhausted { steps: 3 }));
}

#[test]
fn budget_remaining_saturates_at_zero_rather_than_going_negative() {
    let mut ctx = AgentContext::new("probe", Some(1));
    ctx.record_step().unwrap();
    assert_eq!(ctx.budget_remaining(), Some(0));
    let _ = ctx.record_step();
    assert_eq!(ctx.budget_remaining(), Some(0));
}

#[test]
fn extend_chain_appends_without_mutating_the_original() {
    let ctx = AgentContext::new("root", None);
    let extended = ctx.extend_chain("child");
    assert_eq!(extended, vec!["root", "child"]);
    assert_eq!(ctx.delegation_chain, vec!["root"]);
}

#[test]
fn context_tracks_remaining_budget() {
    let mut ctx = AgentContext::new("probe", Some(3));
    assert_eq!(ctx.budget_remaining(), Some(3));
    ctx.record_step().unwrap();
    assert_eq!(ctx.budget_remaining(), Some(2));
    assert!(!ctx.is_budget_exhausted());
}

#[test]
fn remaining_and_exhausted_agree_for_every_small_budget() {
    for budget in 0usize..6 {
        let mut ctx = AgentContext::new("probe", Some(budget));
        for _ in 0..8 {
            let remaining = ctx.budget_remaining().unwrap();
            assert!(remaining <= budget);
            assert_eq!(remaining == 0, ctx.is_budget_exhausted());
            assert_eq!(ctx.is_budget_exhausted(), ctx.steps_taken >= budget);
            let _ = ctx.record_step();
        }
    }
}

#[test]
fn a_delegated_context_extends_the_callers_chain() {
    let from = AgentContext::new("Caller", None);
    let ctx = AgentContext::delegated(&from, "AsksAHuman", Some(4));
    assert_eq!(ctx.delegation_chain, vec!["Caller", "AsksAHuman"]);
    assert_eq!(ctx.agent_name, "AsksAHuman");
    assert_eq!(ctx.steps_taken, 0);
    assert_eq!(ctx.budget, Some(4));
}

fn non_empty() -> Contract<String, String> {
    Contract::new()
        .pre(|input: &String| {
            if input.trim().is_empty() {
                Err("input must not be blank".to_string())
            } else {
                Ok(())
            }
        })
        .post(|output: &String| {
            if output.len() > 10 {
                Err("output must be at most 10 chars".to_string())
            } else {
                Ok(())
            }
        })
}

#[test]
fn an_empty_contract_accepts_everything() {
    let contract: Contract<String, String> = Contract::new();
    assert!(!contract.has_pre());
    assert!(!contract.has_post());
    assert!(contract.check_pre(&String::new()).is_ok());
    assert!(contract.check_post(&"anything at all".to_string()).is_ok());
}

#[test]
fn a_satisfied_contract_returns_ok() {
    let contract = non_empty();
    assert!(contract.check_pre(&"question".to_string()).is_ok());
    assert!(contract.check_post(&"short".to_string()).is_ok());
}

#[test]
fn a_violated_precondition_names_the_invariant_that_failed() {
    let err = non_empty().check_pre(&"   ".to_string()).unwrap_err();
    assert_eq!(
        err,
        TraceErr::ContractViolated {
            message: "precondition: input must not be blank".to_string()
        }
    );
}

#[test]
fn a_violated_postcondition_is_distinguishable_from_a_tool_failure() {
    let err = non_empty()
        .check_post(&"far too long to pass".to_string())
        .unwrap_err();
    assert!(matches!(err, TraceErr::ContractViolated { .. }));
    assert!(!matches!(err, TraceErr::ToolFailed { .. }));
    assert_eq!(
        err.to_text().unwrap(),
        "contract violated: postcondition: output must be at most 10 chars"
    );
}

#[test]
fn contract_step_records_the_violation_message_on_the_step() {
    let contract = non_empty();
    let failed = contract_step("len", &contract.check_post(&"x".repeat(20)), "");
    assert!(failed.is_failed());
    assert_eq!(
        failed.outcome,
        StepOutcome::Failed {
            message: "contract violated: postcondition: output must be at most 10 chars"
                .to_string()
        }
    );

    let passed = contract_step("len", &contract.check_post(&"ok".to_string()), "");
    assert!(!passed.is_failed());
    assert_eq!(passed.name, "len");
}

#[test]
fn a_contract_step_for_low_confidence_records_the_callers_text() {
    let err = TraceErr::LowConfidence { score: bits(0.2), threshold: bits(0.7) };
    let step = contract_step(
        "gate",
        &Err(err),
        "confidence too low: 0.20 (threshold 0.70)",
    );
    assert_eq!(
        step.outcome,
        StepOutcome::Failed {
            message: "confidence too low: 0.20 (threshold 0.70)".to_string()
        }
    );
    assert!(step.confidence.is_none());
    assert!(step.cost.is_none());
    assert!(step.branches.is_empty());
}

#[test]
fn a_later_declaration_replaces_an_earlier_one() {
    let contract: Contract<(), u32> = Contract::new()
        .post(|_: &u32| Err("first".to_string()))
        .post(|_: &u32| Err("second".to_string()));
    assert_eq!(
        contract.check_post(&1).unwrap_err().to_text().unwrap(),
        "contract violated: postcondition: second"
    );
}

#[test]
fn a_contract_is_send_and_sync_so_it_can_live_inside_an_agent() {
    fn assert_send_sync<T: Send + Sync>() {}
    assert_send_sync::<Contract<String, String>>();
}

#[test]
fn violation_keeps_ok_and_names_the_kind_of_a_failure() {
    assert_eq!(violation("precondition", Ok(())), Ok(()));
    assert_eq!(
        violation("postcondition", Err("too long".to_string())),
        Err(TraceErr::ContractViolated {
            message: "postcondition: too long".to_string()
        })
    );
}

#[test]
fn none_variant_is_none_and_has_no_target() {
    let action = EscalationAction::Proceed;
    assert!(action.is_none());
    assert_eq!(action.delegate_target(), None);
}

#[test]
fn delegate_variant_is_not_none_and_exposes_target() {
    let action = EscalationAction::Delegate("Senior".to_string());
    assert!(!action.is_none());
    assert_eq!(action.delegate_target(), Some("Senior"));
}

#[test]
fn emit_variant_is_not_none_and_has_no_target() {
    let action = EscalationAction::Emit(TraceErr::other("abort"));
    assert!(!action.is_none());
    assert_eq!(action.delegate_target(), None);
    assert!(action.needs_a_human());
}

#[test]
fn require_approval_exposes_its_request_and_no_delegate_target() {
    let partial = Trace::new("draft");
    let request = ApprovalRequest::new("ship it?", partial.trace_ref());
    let action = EscalationAction::RequireApproval(request.clone());

    assert!(!action.is_none());
    assert_eq!(action.delegate_target(), None);
    assert_eq!(action.approval_request(), Some(&request));
    assert!(action.needs_a_human());
}

#[test]
fn delegation_and_no_escalation_do_not_need_a_human() {
    assert!(!EscalationAction::Proceed.needs_a_human());
    assert!(!EscalationAction::Delegate("Senior".to_string()).needs_a_human());
}

#[test]
fn hooks_follow_budget_then_failure_then_confidence() {
    let budget: Trace<()> = Trace::failed(TraceErr::BudgetExhausted { steps: 2 });
    assert_eq!(hook_for(&budget, bits(0.7)), Hook::BudgetExceeded);

    let failed: Trace<()> = Trace::failed(TraceErr::other("boom"));
    assert_eq!(hook_for(&failed, bits(0.7)), Hook::StepFailure);

    let mut unsure = Trace::new("guess");
    unsure.push_step(Step::named("guess").with_confidence(bits(0.4)));
    assert_eq!(hook_for(&unsure, bits(0.8)), Hook::LowConfidence);
    assert_eq!(hook_for(&unsure, bits(0.3)), Hook::Healthy);

    let healthy = Trace::new(());
    assert_eq!(hook_for(&healthy, bits(0.7)), Hook::Healthy);
}

#[test]
fn stamping_attaches_an_unattached_request_only() {
    let trace = TraceRef(0x1234_5678_9abc_4def_8000_0000_0000_0001);
    let stamped = stamp(
        EscalationAction::RequireApproval(ApprovalRequest::unattached("proceed?")),
        trace,
    );
    let request = stamped.approval_request().expect("still asks for approval");
    assert!(request.is_attached());
    assert_eq!(request.trace, trace);

    let known = TraceRef(7);
    let restamped = stamp(
        EscalationAction::RequireApproval(ApprovalRequest::new("?", known)),
        trace,
    );
    assert_eq!(restamped.approval_request().unwrap().trace, known);

    assert_eq!(
        stamp(EscalationAction::Delegate("Senior".to_string()), trace),
        EscalationAction::Delegate("Senior".to_string())
    );
}

#[test]
fn the_hop_decision_only_delegates_within_the_limit_to_a_known_agent() {
    let delegate = || EscalationAction::Delegate("Senior".to_string());
    assert_eq!(next_hop(delegate(), 0, 3, true), Hop::Delegate("Senior".to_string()));
    assert_eq!(next_hop(delegate(), 3, 3, true), Hop::Stop(Some(delegate())));
    assert_eq!(next_hop(delegate(), 0, 0, true), Hop::Stop(Some(delegate())));
    assert_eq!(next_hop(delegate(), 0, 3, false), Hop::Stop(Some(delegate())));
    assert_eq!(next_hop(EscalationAction::Proceed, 0, 3, true), Hop::Stop(None));
    let emit = EscalationAction::Emit(TraceErr::other("giving up"));
    assert_eq!(next_hop(emit.clone(), 0, 3, true), Hop::Stop(Some(emit)));
}

#[test]
fn first_max_index_picks_the_single_max() {
    assert_eq!(first_max_index(&vec![bits(0.1), bits(0.9), bits(0.5)]), 1);
}

#[test]
fn first_max_index_keeps_first_candidate_on_tie() {
    assert_eq!(first_max_index(&vec![bits(0.5), bits(0.5), bits(0.5)]), 0);
    assert_eq!(first_max_index(&vec![bits(0.1), bits(0.9), bits(0.9)]), 1);
}

#[test]
fn first_max_index_handles_single_element() {
    assert_eq!(first_max_index(&vec![bits(0.3)]), 0);
}

#[test]
fn a_failed_candidate_scored_minus_one_never_beats_a_scored_one() {
    assert_eq!(first_max_index(&vec![bits(-1.0), bits(0.0), bits(-1.0)]), 1);
    assert_eq!(first_max_index(&vec![bits(-1.0), bits(-1.0)]), 0);
    assert_eq!(first_max_index(&vec![bits(f64::NAN), bits(0.2)]), 1);
}

#[test]
fn the_speculate_step_records_one_branch_per_candidate() {
    let labels = vec!["cautious".to_string(), "confident".to_string(), "broken".to_string()];
    let failures = vec![None, None, Some("nope".to_string())];
    let scores = vec![bits(0.6), bits(0.9), bits(-1.0)];
    let step = speculation_step(&labels, &failures, &scores, 1);
    assert_eq!(step.name, "speculate");
    assert_eq!(step.branches.len(), 3);
    assert_eq!(
        step.branches[0].outcome,
        BranchOutcome::Rejected {
            reason: "lower confidence than winner".to_string()
        }
    );
    assert_eq!(step.branches[1].outcome, BranchOutcome::Taken);
    assert_eq!(step.branches[1].label, "confident");
    assert_eq!(
        step.branches[2].outcome,
        BranchOutcome::Rejected {
            reason: "nope".to_string()
        }
    );
    assert_eq!(step.branches[2].confidence, Some(bits(0.0)));
    assert_eq!(step.branches[1].confidence, Some(bits(0.9)));
}

#[test]
fn the_speculate_step_records_nothing_but_its_branches() {
    let labels = vec!["a".to_string(), "b".to_string()];
    let failures = vec![None, None];
    let scores = vec![bits(0.4), bits(0.8)];
    let step = speculation_step(&labels, &failures, &scores, 1);
    assert_eq!(step.outcome, StepOutcome::Taken);
    assert!(step.confidence.is_none());
    assert!(step.duration.is_none());
    assert!(step.notes.is_none());
    assert!(step.cost.is_none());
    assert!(step.started_at.is_representable());
}
