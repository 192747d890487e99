use trace_lang::assertions::{
    assert_trace_outcome_contract, confidence_below, contains_step, escalates_to, never_step,
};
use trace_lang::{AgentContext, EscalationAction, SpawnOutcome, Step, Trace, TraceAssertionError, TraceOutcome};

fn expert() -> SpawnOutcome<&'static str> {
    let mut trace = Trace::new("expert answer");
    trace.push_step(Step::named("research").with_confidence(0.95f64.to_bits()));
    trace.push_step(Step::named("verify").with_confidence(0.9f64.to_bits()));
    let mut context = AgentContext::delegated(&AgentContext::new("Guesser", None), "Careful", None);
    context = AgentContext::delegated(&context, "Expert", None);
    SpawnOutcome { trace, context, escalation: EscalationAction::Proceed }
}

#[test]
fn an_outcome_exposes_its_trace_and_delegation_chain() {
    let outcome = expert();
    assert_eq!(outcome.trace().value(), Some(&"expert answer"));
    assert_eq!(outcome.delegation_chain(), &["Guesser".to_string(), "Careful".to_string(), "Expert".to_string()]);
}

#[test]
fn contains_and_never_step_look_for_a_step_by_name() {
    let outcome = expert();
    assert!(contains_step(&outcome, "verify").is_ok());
    assert!(matches!(
        contains_step(&outcome, "nonexistent"),
        Err(TraceAssertionError::MissingStep { .. })
    ));
    assert!(never_step(&outcome, "publish").is_ok());
    assert!(matches!(
        never_step(&outcome, "verify"),
        Err(TraceAssertionError::UnexpectedStep { .. })
    ));
}

#[test]
fn a_failed_step_assertion_carries_the_recorded_chain() {
    let outcome = expert();
    let expected = vec![
        ("research".to_string(), Some(0.95f64.to_bits())),
        ("verify".to_string(), Some(0.9f64.to_bits())),
    ];
    assert_eq!(
        contains_step(&outcome, "publish"),
        Err(TraceAssertionError::MissingStep { name: "publish".to_string(), chain: expected.clone() })
    );
    assert_eq!(
        never_step(&outcome, "research"),
        Err(TraceAssertionError::UnexpectedStep { name: "research".to_string(), chain: expected })
    );
}

#[test]
fn confidence_below_compares_the_first_step_with_that_name() {
    let outcome = expert();
    assert!(confidence_below(&outcome, "verify", 0.95f64.to_bits()).is_ok());
    assert_eq!(
        confidence_below(&outcome, "verify", 0.5f64.to_bits()),
        Err(TraceAssertionError::ConfidenceNotBelow {
            name: "verify".to_string(),
            actual: Some(0.9f64.to_bits()),
            threshold: 0.5f64.to_bits(),
            chain: vec![
                ("research".to_string(), Some(0.95f64.to_bits())),
                ("verify".to_string(), Some(0.9f64.to_bits())),
            ],
        })
    );
    assert!(matches!(
        confidence_below(&outcome, "missing", 1.0f64.to_bits()),
        Err(TraceAssertionError::ConfidenceNotBelow { actual: None, .. })
    ));
}

#[test]
fn escalates_to_checks_the_delegation_chain() {
    let outcome = expert();
    assert!(escalates_to(&outcome, "Careful").is_ok());
    assert_eq!(
        escalates_to(&outcome, "NeverRan"),
        Err(TraceAssertionError::DidNotEscalateTo {
            expected: "NeverRan".to_string(),
            actual_chain: vec!["Guesser".to_string(), "Careful".to_string(), "Expert".to_string()],
        })
    );
}

#[test]
fn an_outcome_with_steps_or_an_error_meets_the_outcome_contract() {
    assert!(assert_trace_outcome_contract(&expert()));

    let failed: SpawnOutcome<&'static str> = SpawnOutcome {
        trace: Trace::failed(trace_lang::TraceErr::BudgetExhausted { steps: 3 }),
        context: AgentContext::new("Guesser", None),
        escalation: EscalationAction::Proceed,
    };
    assert!(assert_trace_outcome_contract(&failed));

    let empty: SpawnOutcome<&'static str> = SpawnOutcome {
        trace: Trace::new("nothing recorded"),
        context: AgentContext::new("Guesser", None),
        escalation: EscalationAction::Proceed,
    };
    assert!(!assert_trace_outcome_contract(&empty));
}
