use trace_lang::binary64;
use trace_lang::clock::{Timestamp, FIRST_SECOND, LAST_SECOND};
use trace_lang::text::strip_prefixes;
use trace_lang::{
    ApprovalDecision, ApprovalRequest, Branch, BranchOutcome, Duration, Step, StepCost,
    StepOutcome, Trace, TraceErr, TraceGraph, TraceNode, TraceRef,
};

fn bits(x: f64) -> u64 {
    x.to_bits()
}

fn r() -> TraceRef {
    TraceRef(uuid::Uuid::new_v4().as_u128())
}

#[test]
fn new_records_tokens_and_leaves_dollars_unrecorded() {
    let cost = StepCost::new(10, 5);
    assert_eq!(cost.total_tokens(), 15);
    assert_eq!(cost.dollars, None);
}

#[test]
fn with_dollars_clamps_negative_and_nan_to_zero() {
    assert_eq!(StepCost::new(0, 0).with_dollars(bits(-1.0)).dollars, Some(bits(0.0)));
    assert_eq!(
        StepCost::new(0, 0).with_dollars(bits(f64::NAN)).dollars,
        Some(bits(0.0))
    );
}

#[test]
fn is_zero_only_when_nothing_was_recorded() {
    assert!(StepCost::default().is_zero());
    assert!(!StepCost::new(0, 0).with_dollars(bits(0.0)).is_zero());
    assert!(!StepCost::new(1, 0).is_zero());
}

#[test]
fn total_tokens_saturates_instead_of_overflowing() {
    assert_eq!(StepCost::new(u64::MAX, u64::MAX).total_tokens(), u64::MAX);
}

#[test]
fn step_confidence_clamps_into_unit_range() {
    assert_eq!(Step::named("a").with_confidence(bits(1.5)).confidence, Some(bits(1.0)));
    assert_eq!(Step::named("a").with_confidence(bits(-0.5)).confidence, Some(bits(0.0)));
}

#[test]
fn step_confidence_is_always_in_unit_range_for_sampled_inputs() {
    let mut x = -1000.0f64;
    while x <= 1000.0 {
        let c = f64::from_bits(Step::named("a").with_confidence(bits(x)).confidence.unwrap());
        assert!((0.0..=1.0).contains(&c));
        x += 7.25;
    }
}

#[test]
fn step_rejected_and_failed_flip_outcome_and_helpers() {
    let rejected = Step::named("a").rejected("nope");
    assert!(rejected.is_rejected());
    assert!(!rejected.is_failed());

    let failed = Step::named("b").failed("boom");
    assert!(failed.is_failed());
    assert!(!failed.is_rejected());

    let taken = Step::named("c");
    assert!(!taken.is_rejected());
    assert!(!taken.is_failed());
}

#[test]
fn with_cost_attaches_a_cost_and_defaults_to_none() {
    assert_eq!(Step::named("a").cost, None);
    let step = Step::named("a").with_cost(StepCost::new(10, 5));
    assert_eq!(step.cost.unwrap().total_tokens(), 15);
}

#[test]
fn branch_confidence_clamps_into_unit_range() {
    assert_eq!(
        Branch::taken("a").with_confidence(bits(2.0)).confidence,
        Some(bits(1.0))
    );
}

#[test]
fn branch_taken_and_rejected_set_expected_outcome() {
    let taken = Branch::taken("a");
    assert_eq!(taken.outcome, BranchOutcome::Taken);

    let rejected = Branch::rejected("b", "worse option");
    assert_eq!(
        rejected.outcome,
        BranchOutcome::Rejected {
            reason: "worse option".to_string()
        }
    );
}

#[test]
fn a_nan_confidence_clamps_to_zero_and_ieee_comparison_is_unordered() {
    let nan = bits(f64::NAN);
    assert!(binary64::nan(nan));
    let x = f64::from_bits(Step::named("a").with_confidence(nan).confidence.unwrap());
    assert!((0.0..=1.0).contains(&x));
    assert_eq!(x, 0.0);
    let b = f64::from_bits(Branch::taken("a").with_confidence(nan).confidence.unwrap());
    assert_eq!(b, 0.0);
    assert!(!binary64::less_than(nan, bits(1.0)));
    assert!(!binary64::less_than(bits(1.0), nan));
    assert!(binary64::less_than(bits(-2.0), bits(-1.0)));
    assert!(!binary64::less_than(bits(-0.0), bits(0.0)));
    assert!(binary64::less_than(bits(0.25), bits(0.5)));
}

#[test]
fn new_trace_is_ok_and_carries_value() {
    let t = Trace::new(42);
    assert!(t.is_ok());
    assert_eq!(t.value(), Some(&42));
    assert!(t.error().is_none());
}

#[test]
fn failed_trace_is_not_ok_and_carries_error() {
    let t: Trace<i32> = Trace::failed(TraceErr::other("boom"));
    assert!(!t.is_ok());
    assert_eq!(t.value(), None);
    assert!(t.error().is_some());
}

#[test]
fn into_value_consumes_and_returns_owned_value() {
    let t = Trace::new(String::from("hi"));
    assert_eq!(t.into_value(), Some(String::from("hi")));
}

#[test]
fn trace_ref_wraps_the_trace_id() {
    let t = Trace::new(1);
    assert_eq!(t.trace_ref(), TraceRef(t.id));
}

#[test]
fn a_trace_ref_displays_with_the_trace_prefix() {
    let r = TraceRef(0x1234abcd_0000_4000_8000_000000000001);
    assert_eq!(r.to_text(), "trace::1234abcd-0000-4000-8000-000000000001");
}

#[test]
fn push_step_appends_to_causal_chain() {
    let mut t = Trace::new(1);
    t.push_step(Step::named("a"));
    t.push_step(Step::named("b"));
    let chain = t.causal_chain();
    assert_eq!(chain.len(), 2);
    assert_eq!(chain[0].name, "a");
    assert_eq!(chain[1].name, "b");
}

#[test]
fn merge_concatenates_causal_chains_and_keeps_lhs_value() {
    let mut lhs = Trace::new(1);
    lhs.push_step(Step::named("a"));
    let mut rhs = Trace::new(2);
    rhs.push_step(Step::named("b"));

    let merged = Trace::merge(lhs, rhs);
    assert_eq!(merged.value(), Some(&1));
    assert_eq!(merged.causal_chain().len(), 2);
}

#[test]
fn rejected_branches_filters_only_rejected_steps() {
    let mut t = Trace::new(1);
    t.push_step(Step::named("ok"));
    t.push_step(Step::named("rej").rejected("nope"));
    assert_eq!(t.rejected_branches().len(), 1);
    assert_eq!(t.rejected_branches()[0].name, "rej");
}

#[test]
fn all_branches_flattens_every_steps_branches_in_order() {
    let mut t = Trace::new(1);
    let mut first = Step::named("first");
    first.branches.push(Branch::taken("a"));
    first.branches.push(Branch::rejected("b", "worse"));
    let mut second = Step::named("second");
    second.branches.push(Branch::taken("c"));
    t.push_step(first);
    t.push_step(Step::named("none"));
    t.push_step(second);
    let labels: Vec<&str> = t.all_branches().iter().map(|b| b.label.as_str()).collect();
    assert_eq!(labels, vec!["a", "b", "c"]);
}

#[test]
fn bottlenecks_sorts_slowest_first() {
    let mut t = Trace::new(1);
    t.push_step(Step::named("fast").with_duration(Duration::from_millis(10)));
    t.push_step(Step::named("slow").with_duration(Duration::from_millis(100)));
    let sorted = t.bottlenecks();
    assert_eq!(sorted[0].name, "slow");
    assert_eq!(sorted[1].name, "fast");
}

#[test]
fn bottlenecks_rank_untimed_steps_as_zero_and_keep_ties_in_order() {
    let mut t = Trace::new(1);
    t.push_step(Step::named("untimed"));
    t.push_step(Step::named("zero").with_duration(Duration::zero()));
    t.push_step(Step::named("slow").with_duration(Duration::from_secs(1)));
    let names: Vec<&str> = t.bottlenecks().iter().map(|s| s.name.as_str()).collect();
    assert_eq!(names, vec!["slow", "untimed", "zero"]);
}

#[test]
fn priciest_steps_sorts_by_dollars_then_tokens() {
    let mut t = Trace::new(1);
    t.push_step(Step::named("free"));
    t.push_step(Step::named("cheap").with_cost(StepCost::new(1, 1).with_dollars(bits(0.01))));
    t.push_step(Step::named("pricey").with_cost(StepCost::new(1, 1).with_dollars(bits(0.50))));

    let names: Vec<&str> = t.priciest_steps().iter().map(|s| s.name.as_str()).collect();
    assert_eq!(names, vec!["pricey", "cheap", "free"]);
}

#[test]
fn priciest_steps_falls_back_to_tokens_when_nothing_is_priced() {
    let mut t = Trace::new(1);
    t.push_step(Step::named("small").with_cost(StepCost::new(1, 1)));
    t.push_step(Step::named("big").with_cost(StepCost::new(500, 500)));

    let names: Vec<&str> = t.priciest_steps().iter().map(|s| s.name.as_str()).collect();
    assert_eq!(names, vec!["big", "small"]);
}

#[test]
fn priciest_steps_puts_steps_with_no_cost_last() {
    let mut t = Trace::new(1);
    t.push_step(Step::named("free"));
    t.push_step(Step::named("zero").with_cost(StepCost::new(0, 0)));
    let names: Vec<&str> = t.priciest_steps().iter().map(|s| s.name.as_str()).collect();
    assert_eq!(names, vec!["zero", "free"]);
}

#[test]
fn priciest_steps_counts_a_nan_price_as_zero() {
    let mut t = Trace::new(1);
    let mut odd = StepCost::new(1, 1);
    odd.dollars = Some(f64::NAN.to_bits());
    t.push_step(Step::named("nan").with_cost(odd));
    t.push_step(Step::named("cent").with_cost(StepCost::new(1, 1).with_dollars(0.01f64.to_bits())));
    let names: Vec<&str> = t.priciest_steps().iter().map(|s| s.name.as_str()).collect();
    assert_eq!(names, vec!["cent", "nan"]);
}

#[test]
fn priciest_steps_keeps_execution_order_on_a_tie() {
    let mut t = Trace::new(1);
    t.push_step(Step::named("first").with_cost(StepCost::new(10, 10).with_dollars(bits(0.05))));
    t.push_step(Step::named("second").with_cost(StepCost::new(10, 10).with_dollars(bits(0.05))));

    assert_eq!(t.priciest_steps()[0].name, "first");
}

#[test]
fn low_confidence_uses_default_threshold_of_0_7() {
    let mut t = Trace::new(1);
    t.push_step(Step::named("weak").with_confidence(bits(0.5)));
    t.push_step(Step::named("strong").with_confidence(bits(0.9)));
    let weak = t.low_confidence();
    assert_eq!(weak.len(), 1);
    assert_eq!(weak[0].name, "weak");
}

#[test]
fn low_confidence_below_respects_arbitrary_threshold() {
    let mut t = Trace::new(1);
    t.push_step(Step::named("a").with_confidence(bits(0.3)));
    t.push_step(Step::named("b").with_confidence(bits(0.6)));
    assert_eq!(t.low_confidence_below(bits(0.5)).len(), 1);
    assert_eq!(t.low_confidence_below(bits(0.7)).len(), 2);
}

#[test]
fn from_trace_for_result_maps_ok_and_err() {
    let ok: Result<i32, TraceErr> = Trace::new(5).into_result();
    assert_eq!(ok, Ok(5));

    let err: Result<i32, TraceErr> = Trace::failed(TraceErr::other("x")).into_result();
    assert!(err.is_err());
}

#[test]
fn error_text_matches_each_variants_display() {
    assert_eq!(TraceErr::rejected("no").to_text().unwrap(), "rejected: no");
    assert_eq!(
        TraceErr::tool_failed("grep", "exit 2").to_text().unwrap(),
        "tool failed: grep \u{2014} exit 2"
    );
    assert_eq!(
        TraceErr::BudgetExhausted { steps: 12 }.to_text().unwrap(),
        "budget exhausted after 12 steps"
    );
    assert_eq!(
        TraceErr::DelegationFailed {
            trace_id: 0x1234abcd_0000_4000_8000_000000000001,
            message: "down".to_string()
        }
        .to_text()
        .unwrap(),
        "delegation failed (trace 1234abcd-0000-4000-8000-000000000001): down"
    );
    assert_eq!(
        TraceErr::Timeout {
            duration: Duration::from_millis(1500)
        }
        .to_text()
        .unwrap(),
        "step timed out after 1.5s"
    );
    assert_eq!(TraceErr::Serde("bad".to_string()).to_text().unwrap(), "serialization error: bad");
    assert_eq!(TraceErr::other("plain").to_text().unwrap(), "plain");
    assert_eq!(
        TraceErr::approval_denied("joe", "no").to_text().unwrap(),
        "approval denied by joe: no"
    );
    assert_eq!(
        TraceErr::LowConfidence {
            score: bits(0.4),
            threshold: bits(0.7)
        }
        .to_text(),
        None
    );
}

#[test]
fn random_ids_carry_the_version_four_bits_and_are_never_nil() {
    for _ in 0..32 {
        let id = uuid::Uuid::new_v4().as_u128();
        assert_ne!(id, 0);
        assert_eq!(id & 0xF000_C000_0000_0000_0000, 0x4000_8000_0000_0000_0000);
    }
}

fn diamondless_chain() -> (TraceGraph, TraceRef, TraceRef, TraceRef, TraceRef) {
    let (a, b, c, d) = (r(), r(), r(), r());
    let mut g = TraceGraph::new();
    for (node, label) in [(&a, "A"), (&b, "B"), (&c, "C"), (&d, "D")] {
        g.record_node(TraceNode::new(*node, label));
    }
    g.record_edge(a, b);
    g.record_edge(b, c);
    g.record_edge(a, d);
    (g, a, b, c, d)
}

#[test]
fn record_edge_creates_placeholder_nodes_for_unknown_refs() {
    let (a, b) = (r(), r());
    let mut g = TraceGraph::new();
    g.record_edge(a, b);

    assert_eq!(g.len(), 2);
    assert_eq!(g.node(&a).unwrap().label, "");
    assert_eq!(g.edges().len(), 1);
}

#[test]
fn record_edge_ignores_self_edges_and_duplicates() {
    let (a, b) = (r(), r());
    let mut g = TraceGraph::new();
    g.record_edge(a, a);
    assert!(g.is_empty());

    g.record_edge(a, b);
    g.record_edge(a, b);
    assert_eq!(g.edges().len(), 1);
}

#[test]
fn record_node_overwrites_a_placeholder_without_dropping_edges() {
    let (a, b) = (r(), r());
    let mut g = TraceGraph::new();
    g.record_edge(a, b);
    g.record_node(TraceNode::new(a, "Fetcher"));

    assert_eq!(g.node(&a).unwrap().label, "Fetcher");
    assert_eq!(g.edges().len(), 1);
}

#[test]
fn downstream_of_is_transitive_and_excludes_the_start() {
    let (g, a, b, c, d) = diamondless_chain();
    let labels: Vec<&str> = g
        .downstream_of(&a)
        .iter()
        .map(|n| n.label.as_str())
        .collect();
    assert_eq!(labels, vec!["B", "D", "C"]);
    assert_eq!(g.downstream_of(&c).len(), 0);
    assert_eq!(g.downstream_of(&b)[0].label, "C");
    assert_eq!(g.downstream_of(&d).len(), 0);
}

#[test]
fn downstream_and_upstream_mirror_each_other() {
    let (g, a, b, c, d) = diamondless_chain();
    let all = [a, b, c, d];
    for x in all {
        for y in all {
            let down = g.downstream_of(&x).iter().any(|n| n.trace_ref == y);
            let up = g.upstream_of(&y).iter().any(|n| n.trace_ref == x);
            assert_eq!(down, up);
        }
    }
}

#[test]
fn upstream_of_walks_edges_backwards() {
    let (g, a, b, c, _d) = diamondless_chain();
    let labels: Vec<&str> = g.upstream_of(&c).iter().map(|n| n.label.as_str()).collect();
    assert_eq!(labels, vec!["B", "A"]);
    assert_eq!(g.upstream_of(&a).len(), 0);
    assert_eq!(g.upstream_of(&b)[0].label, "A");
}

#[test]
fn critical_path_picks_the_slowest_chain_not_the_longest_one() {
    let (a, slow, fast, tail) = (r(), r(), r(), r());
    let mut g = TraceGraph::new();
    g.record_node(TraceNode::new(a, "A"));
    g.record_node(TraceNode::new(slow, "Slow").with_duration(Duration::from_secs(10)));
    g.record_node(TraceNode::new(fast, "Fast").with_duration(Duration::from_millis(1)));
    g.record_node(TraceNode::new(tail, "Tail").with_duration(Duration::from_millis(1)));

    g.record_edge(a, slow);
    g.record_edge(a, fast);
    g.record_edge(fast, tail);

    assert_eq!(g.critical_path(), vec![a, slow]);
}

#[test]
fn critical_path_falls_back_to_hop_count_when_nothing_is_timed() {
    let (g, a, b, c, _d) = diamondless_chain();
    assert_eq!(g.critical_path(), vec![a, b, c]);
}

#[test]
fn critical_path_of_an_empty_graph_is_empty() {
    assert_eq!(TraceGraph::new().critical_path(), Vec::<TraceRef>::new());
}

#[test]
fn critical_path_terminates_on_a_cycle_by_ignoring_the_back_edge() {
    let (a, b) = (r(), r());
    let mut g = TraceGraph::new();
    g.record_edge(a, b);
    g.record_edge(b, a);

    let path = g.critical_path();
    assert_eq!(path.len(), 2);
    assert!(path.contains(&a) && path.contains(&b));
}

#[test]
fn from_trace_sums_step_durations() {
    let mut t = Trace::new(1);
    t.push_step(Step::named("a").with_duration(Duration::from_millis(30)));
    t.push_step(Step::named("b").with_duration(Duration::from_millis(12)));
    t.push_step(Step::named("untimed"));

    let node = TraceNode::from_trace(&t, "Worker");
    assert_eq!(node.trace_ref, t.trace_ref());
    assert_eq!(node.duration, Some(Duration::from_millis(42)));
}

#[test]
fn critical_path_breaks_a_tie_between_starting_nodes_by_recording_order() {
    let (a, b, c, d) = (TraceRef(2), TraceRef(3), TraceRef(1), TraceRef(4));
    let mut g = TraceGraph::new();
    g.record_edge(a, b);
    g.record_edge(c, d);
    assert_eq!(g.critical_path(), vec![a, b]);
}

#[test]
fn critical_path_keeps_the_first_recorded_chain_on_a_tie() {
    let (a, b, c) = (r(), r(), r());
    let mut g = TraceGraph::new();
    g.record_node(TraceNode::new(a, "A"));
    g.record_node(TraceNode::new(b, "B"));
    g.record_node(TraceNode::new(c, "C"));
    g.record_edge(a, b);
    g.record_edge(a, c);

    assert_eq!(g.critical_path(), vec![a, b]);
}

#[test]
fn critical_path_is_always_a_valid_acyclic_walk() {
    let mut seed: u64 = 0x9e37_79b9_7f4a_7c15;
    for _ in 0..200 {
        let refs: Vec<TraceRef> = (0..6).map(|_| r()).collect();
        let mut g = TraceGraph::new();
        for (i, node) in refs.iter().enumerate() {
            g.record_node(TraceNode::new(*node, &format!("n{i}")));
        }
        seed ^= seed << 13;
        seed ^= seed >> 7;
        seed ^= seed << 17;
        let count = (seed % 24) as usize;
        for k in 0..count {
            let from = ((seed >> (k % 50)) % 6) as usize;
            let to = ((seed >> ((k * 7) % 50)) % 6) as usize;
            g.record_edge(refs[from], refs[to]);
        }
        let path = g.critical_path();
        assert!(!path.is_empty());
        for (i, x) in path.iter().enumerate() {
            assert!(!path[i + 1..].contains(x), "path revisits a node");
        }
        for pair in path.windows(2) {
            assert!(g.edges().contains(&(pair[0], pair[1])));
        }
    }
}

#[test]
fn a_new_request_carries_the_trace_that_reached_the_pause() {
    let trace = r();
    assert_eq!(ApprovalRequest::new("?", trace).trace, trace);
}

#[test]
fn a_request_carries_the_trace_that_reached_the_pause() {
    let trace = r();
    assert_eq!(ApprovalRequest::new("?", trace).trace, trace);
}

#[test]
fn an_unattached_request_is_stamped_once_and_then_left_alone() {
    let mut request = ApprovalRequest::unattached("ship it?");
    assert!(!request.is_attached());

    let real = r();
    request.attach(real);
    assert!(request.is_attached());
    assert_eq!(request.trace, real);

    request.attach(r());
    assert_eq!(request.trace, real);
}

#[test]
fn a_request_built_with_a_known_trace_is_already_attached() {
    let request = ApprovalRequest::new("?", r());
    assert!(request.is_attached());
}

#[test]
fn a_new_request_has_no_context_until_one_is_attached() {
    let request = ApprovalRequest::new("ship it?", r());
    assert_eq!(request.context, serde_json::Value::Null);

    let mut context = serde_json::Map::new();
    context.insert("diff".to_string(), serde_json::Value::String("+1 -1".to_string()));
    let with_context = request.with_context(serde_json::Value::Object(context));
    assert_eq!(with_context.context["diff"], "+1 -1");
}

#[test]
fn age_is_non_negative_for_a_request_created_now() {
    assert!(ApprovalRequest::new("ship it?", r()).age() >= 0);
}

#[test]
fn approve_and_reject_record_who_decided() {
    let approved = ApprovalDecision::approve("joe");
    assert!(approved.is_approved());
    assert_eq!(approved.decided_by(), "joe");

    let rejected = ApprovalDecision::reject("joe", "budget not signed off");
    assert!(!rejected.is_approved());
    assert_eq!(rejected.decided_by(), "joe");
}

#[test]
fn approve_with_note_keeps_the_note() {
    let decision = ApprovalDecision::approve_with_note("joe", "checked with finance");
    assert_eq!(
        decision,
        ApprovalDecision::Approved {
            by: "joe".to_string(),
            note: Some("checked with finance".to_string()),
        }
    );
}

#[test]
fn durations_add_and_saturate() {
    let a = Duration::from_millis(1500);
    assert_eq!(a.as_secs(), 1);
    assert_eq!(a.subsec_nanos(), 500_000_000);
    assert_eq!(a.as_nanos(), 1_500_000_000);
    assert_eq!(a.checked_add(Duration::from_micros(500_000)), Some(Duration::from_secs(2)));
    let max = Duration::new(u64::MAX, 999_999_999);
    assert_eq!(max.checked_add(Duration::from_nanos(1)), None);
    assert_eq!(max.saturating_add(Duration::from_secs(3)), max);
}

#[test]
fn step_outcome_defaults_to_taken() {
    assert_eq!(Step::named("a").outcome, StepOutcome::Taken);
}

#[test]
fn a_span_keeps_its_name_and_measures_forward() {
    let span = trace_lang::Span::start("search");
    assert_eq!(span.name, "search");
    let first = span.elapsed();
    let total = span.finish();
    assert!(total.as_nanos() >= first.as_nanos());
}

#[test]
fn a_file_store_remembers_its_path() {
    let store = trace_lang::FileCheckpointStore::new("/tmp/checkpoint.trace.json");
    assert_eq!(store.path(), "/tmp/checkpoint.trace.json");
}

#[test]
fn total_tokens_sums_every_costed_step_and_saturates() {
    let mut trace = Trace::new(());
    trace.push_step(Step::named("a").with_cost(StepCost::new(10, 5)));
    trace.push_step(Step::named("b"));
    trace.push_step(Step::named("c").with_cost(StepCost::new(7, 1).with_dollars(bits(0.5))));
    assert_eq!(trace.total_tokens(), (17, 6));

    trace.push_step(Step::named("d").with_cost(StepCost::new(u64::MAX, 0)));
    assert_eq!(trace.total_tokens(), (u64::MAX, 6));

    assert_eq!(Trace::new(()).total_tokens(), (0, 0));
}

#[test]
fn a_fresh_step_is_stamped_with_a_representable_instant() {
    let step = Step::named("now");
    assert!(step.started_at.is_representable());
    assert!(step.started_at.secs > 1_600_000_000);
    let request = ApprovalRequest::new("ok?", TraceRef(1));
    assert!(request.requested_at.is_representable());
}

#[test]
fn representable_instants_span_chronos_dates() {
    assert!(Timestamp { secs: 0, nanos: 0 }.is_representable());
    assert!(Timestamp { secs: LAST_SECOND, nanos: 999_999_999 }.is_representable());
    assert!(!Timestamp { secs: LAST_SECOND + 1, nanos: 0 }.is_representable());
    assert!(Timestamp { secs: -1, nanos: 0 }.is_representable());
    assert!(Timestamp { secs: FIRST_SECOND, nanos: 0 }.is_representable());
    assert!(!Timestamp { secs: FIRST_SECOND - 1, nanos: 999_999_999 }.is_representable());
    assert!(!Timestamp { secs: 0, nanos: 1_000_000_000 }.is_representable());
    assert!(chrono::DateTime::from_timestamp(LAST_SECOND, 999_999_999).is_some());
    assert!(chrono::DateTime::from_timestamp(LAST_SECOND + 1, 0).is_none());
    assert!(chrono::DateTime::from_timestamp(FIRST_SECOND, 0).is_some());
    assert!(chrono::DateTime::from_timestamp(FIRST_SECOND - 1, 999_999_999).is_none());
}

#[test]
fn stripping_an_empty_prefix_leaves_the_text_alone() {
    assert_eq!(strip_prefixes("trace::abc", ""), "trace::abc");
    assert_eq!(strip_prefixes("trace::trace::abc", "trace::"), "abc");
}
