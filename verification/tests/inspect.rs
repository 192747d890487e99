use trace_lang::inspect::{chain, diff, list, normalize, resolve_task, short, status_label, trace_of};
use trace_lang::render::{render_chain, render_diff, render_list, render_show};
use trace_lang::{
    ApprovalRequest, DiffReport, Priority, StatusFilter, Task, TaskRegistry, TaskStatus,
    TaskSummary, TraceErr, TraceRef,
};

fn a_trace() -> TraceRef {
    TraceRef(uuid::Uuid::new_v4().as_u128())
}

fn uuid_text(id: u128) -> String {
    uuid::Uuid::from_u128(id).to_string()
}

fn a_registry() -> (TaskRegistry, u128, u128, u128) {
    let survey = Task::new("survey").with_priority(Priority::High);
    let design = Task::new("design").depends_on(survey.id);
    let write = Task::new("write").depends_on(design.id);
    let (s, d, w) = (survey.id, design.id, write.id);
    (
        TaskRegistry::from_tasks(vec![survey, design, write, Task::new("changelog")]),
        s,
        d,
        w,
    )
}

#[test]
fn list_returns_every_task_highest_priority_first() {
    let (registry, _, _, _) = a_registry();
    let rows = list(&registry, None);
    assert_eq!(rows.len(), 4);
    assert_eq!(rows[0].title, "survey");
    assert_eq!(rows[0].priority, "high");
}

#[test]
fn list_is_ordered_deterministically_within_a_priority() {
    let registry = TaskRegistry::from_tasks(vec![
        Task::new("zebra"),
        Task::new("apple"),
        Task::new("mango"),
        Task::new("urgent").with_priority(Priority::Critical),
    ]);
    let rows = list(&registry, None);
    let titles: Vec<&str> = rows.iter().map(|t| t.title.as_str()).collect();
    assert_eq!(titles, vec!["urgent", "apple", "mango", "zebra"]);
}

#[test]
fn diff_output_is_ordered_deterministically() {
    let before = TaskRegistry::new();
    let after = TaskRegistry::from_tasks(vec![
        Task::new("zebra"),
        Task::new("apple"),
        Task::new("mango"),
    ]);
    let report = diff(&before, &after);
    let titles: Vec<&str> = report.added.iter().map(|t| t.title.as_str()).collect();
    assert_eq!(titles, vec!["apple", "mango", "zebra"]);
}

#[test]
fn list_filters_by_status() {
    let (mut registry, survey_id, _, _) = a_registry();
    registry.get_mut(survey_id).unwrap().complete(a_trace());

    assert_eq!(list(&registry, Some(StatusFilter::Done)).len(), 1);
    assert_eq!(list(&registry, Some(StatusFilter::Pending)).len(), 3);
    assert_eq!(list(&registry, Some(StatusFilter::Paused)).len(), 0);
}

#[test]
fn resolve_task_accepts_a_full_id_or_a_prefix() {
    let (registry, survey_id, _, _) = a_registry();
    assert_eq!(
        resolve_task(&registry, &uuid_text(survey_id)).unwrap().title,
        "survey"
    );
    assert_eq!(
        resolve_task(&registry, &short(survey_id)).unwrap().title,
        "survey"
    );
    assert_eq!(
        resolve_task(&registry, &uuid_text(survey_id).to_uppercase())
            .unwrap()
            .title,
        "survey"
    );
}

#[test]
fn an_ambiguous_prefix_is_an_error_not_a_lucky_guess() {
    let (registry, _, _, _) = a_registry();
    let err = resolve_task(&registry, "").unwrap_err();
    assert!(err.to_text().unwrap().contains("no task id given"));

    let shared: u128 = 0xaaaaaaaa_0000_0000_0000_000000000001;
    let other: u128 = 0xaaaaaaaa_0000_0000_0000_000000000002;
    let mut a = Task::new("a");
    a.id = shared;
    let mut b = Task::new("b");
    b.id = other;
    let colliding = TaskRegistry::from_tasks(vec![a, b]);

    let err = resolve_task(&colliding, "aaaaaaaa").unwrap_err();
    let text = err.to_text().unwrap();
    assert!(text.contains("ambiguous"), "{text}");
    assert_eq!(
        resolve_task(&colliding, &uuid_text(shared)).unwrap().title,
        "a"
    );
}

#[test]
fn an_ambiguous_prefix_lists_every_match() {
    let mut a = Task::new("a");
    a.id = 0xaaaaaaaa_0000_0000_0000_000000000001;
    let mut b = Task::new("b");
    b.id = 0xaaaaaaab_0000_0000_0000_000000000002;
    let registry = TaskRegistry::from_tasks(vec![a, b]);
    let err = resolve_task(&registry, "aaaaaaa").unwrap_err();
    assert_eq!(
        err,
        TraceErr::Other(
            "\"aaaaaaa\" is ambiguous \u{2014} 2 tasks match: aaaaaaaa, aaaaaaab".to_string()
        )
    );
}

#[test]
fn an_ambiguous_prefix_lists_matches_highest_priority_first() {
    let mut a = Task::new("a");
    a.id = 0xaaaaaaaa_0000_0000_0000_000000000001;
    let mut b = Task::new("b").with_priority(Priority::Critical);
    b.id = 0xaaaaaaab_0000_0000_0000_000000000002;
    let registry = TaskRegistry::from_tasks(vec![a, b]);
    let err = resolve_task(&registry, "aaaaaaa").unwrap_err();
    assert_eq!(
        err,
        TraceErr::Other(
            "\"aaaaaaa\" is ambiguous \u{2014} 2 tasks match: aaaaaaab, aaaaaaaa".to_string()
        )
    );
}

#[test]
fn an_unknown_task_is_an_error() {
    let (registry, _, _, _) = a_registry();
    assert!(resolve_task(&registry, "ffffffff").is_err());
}

#[test]
fn normalize_trims_lowercases_and_drops_hyphens() {
    assert_eq!(normalize("  AB-cd-EF \n"), "abcdef");
    assert_eq!(normalize("---"), "");
}

#[test]
fn chain_finds_the_task_behind_a_trace_and_walks_its_dependencies() {
    let (mut registry, survey_id, design_id, write_id) = a_registry();
    registry.get_mut(survey_id).unwrap().complete(a_trace());
    registry.get_mut(design_id).unwrap().complete(a_trace());

    let target = a_trace();
    registry.get_mut(write_id).unwrap().complete(target);

    let report = chain(&registry, &target.to_text()).unwrap();
    assert_eq!(report.task.title, "write");
    let upstream: Vec<&str> = report.upstream.iter().map(|t| t.title.as_str()).collect();
    assert_eq!(upstream, vec!["design", "survey"]);
    assert!(report.upstream.iter().all(|t| t.trace.is_some()));
}

#[test]
fn chain_accepts_the_displayed_trace_form_and_a_bare_prefix() {
    let (mut registry, survey_id, _, _) = a_registry();
    let target = a_trace();
    registry.get_mut(survey_id).unwrap().complete(target);

    assert!(chain(&registry, &format!("trace::{}", uuid_text(target.0))).is_ok());
    assert!(chain(&registry, &uuid_text(target.0)).is_ok());
    assert!(chain(&registry, &uuid_text(target.0)[..8]).is_ok());
}

#[test]
fn chain_reaches_a_paused_task_through_its_pending_approval() {
    let (mut registry, survey_id, _, _) = a_registry();
    let target = a_trace();
    registry
        .get_mut(survey_id)
        .unwrap()
        .pause(ApprovalRequest::new("ok?", target));

    let report = chain(&registry, &target.to_text()).unwrap();
    assert_eq!(report.task.status, "paused");
    assert!(report.upstream.is_empty());
}

#[test]
fn chain_on_an_unknown_trace_is_an_error() {
    let (registry, _, _, _) = a_registry();
    assert!(chain(&registry, &a_trace().to_text()).is_err());
    assert!(chain(&registry, "trace::").is_err());
}

#[test]
fn upstream_skips_a_dependency_the_checkpoint_does_not_contain() {
    let ghost = uuid::Uuid::new_v4().as_u128();
    let orphan = Task::new("orphan").depends_on(ghost);
    let mut registry = TaskRegistry::from_tasks(vec![orphan]);
    let id = registry.pending()[0].id;
    let target = a_trace();
    registry.get_mut(id).unwrap().complete(target);

    let report = chain(&registry, &target.to_text()).unwrap();
    assert!(report.upstream.is_empty());
}

#[test]
fn upstream_visits_each_shared_dependency_once() {
    let base = Task::new("base");
    let left = Task::new("left").depends_on(base.id);
    let right = Task::new("right").depends_on(base.id);
    let top = Task::new("top").depends_on(left.id).depends_on(right.id);
    let top_id = top.id;
    let mut registry = TaskRegistry::from_tasks(vec![base, left, right, top]);
    let target = a_trace();
    registry.get_mut(top_id).unwrap().complete(target);

    let report = chain(&registry, &target.to_text()).unwrap();
    let upstream: Vec<&str> = report.upstream.iter().map(|t| t.title.as_str()).collect();
    assert_eq!(upstream, vec!["left", "right", "base"]);
}

#[test]
fn diff_reports_additions_removals_and_status_moves() {
    let (before, survey_id, _, _) = a_registry();

    let mut after = before.clone();
    after.get_mut(survey_id).unwrap().complete(a_trace());
    after.insert(Task::new("brand new"));

    let report = diff(&before, &after);
    assert_eq!(report.added.len(), 1);
    assert_eq!(report.added[0].title, "brand new");
    assert!(report.removed.is_empty());
    assert_eq!(report.changed.len(), 1);
    assert_eq!(report.changed[0].from, "pending");
    assert_eq!(report.changed[0].to, "done");
    assert!(!report.is_empty());
}

#[test]
fn diff_reports_a_task_that_disappeared() {
    let (before, _, _, _) = a_registry();
    let after = TaskRegistry::new();

    let report = diff(&before, &after);
    assert_eq!(report.removed.len(), 4);
    assert!(report.added.is_empty());
}

#[test]
fn diff_of_a_checkpoint_against_itself_is_empty() {
    let (registry, _, _, _) = a_registry();
    assert!(diff(&registry, &registry).is_empty());
}

#[test]
fn a_task_that_failed_twice_differently_is_not_a_status_change() {
    let (before, survey_id, _, _) = a_registry();
    let mut before = before;
    before
        .get_mut(survey_id)
        .unwrap()
        .fail(TraceErr::other("first"), a_trace());

    let mut after = before.clone();
    after
        .get_mut(survey_id)
        .unwrap()
        .fail(TraceErr::other("second"), a_trace());

    assert!(diff(&before, &after).is_empty());
}

#[test]
fn rendering_an_empty_result_says_so_rather_than_printing_a_bare_header() {
    assert_eq!(render_list(&[]), "no matching tasks");
    assert_eq!(render_diff(&DiffReport::default()), "no changes");
}

#[test]
fn render_list_aligns_rows_under_a_header_and_counts_them() {
    let mut t = Task::new("ship it");
    t.id = 0x1234abcd_0000_4000_8000_000000000001;
    let rows = vec![TaskSummary::from_task(&t)];
    assert_eq!(
        render_list(&rows),
        "id        status    priority  title\n1234abcd  pending   normal    ship it\n\n1 task(s)"
    );
}

#[test]
fn render_diff_marks_additions_removals_and_moves() {
    let mut t = Task::new("new one");
    t.id = 0x1234abcd_0000_4000_8000_000000000001;
    let report = DiffReport {
        added: vec![TaskSummary::from_task(&t)],
        removed: vec![],
        changed: vec![trace_lang::StatusChange {
            id: 0xdeadbeef_0000_4000_8000_000000000002,
            title: "moved".to_string(),
            from: "pending".to_string(),
            to: "done".to_string(),
        }],
    };
    assert_eq!(
        render_diff(&report),
        "+ 1234abcd  new one\n~ deadbeef  moved: pending \u{2192} done"
    );
}

#[test]
fn chain_renders_a_task_with_no_dependencies_explicitly() {
    let (mut registry, survey_id, _, _) = a_registry();
    let target = a_trace();
    registry.get_mut(survey_id).unwrap().complete(target);

    let rendered = render_chain(&chain(&registry, &target.to_text()).unwrap());
    assert!(rendered.contains("nothing upstream"));
}

/// `show` as the command prints it: the confidence to two decimals and the
/// JSON context rendered here, everything else by the library.
fn show(registry: &TaskRegistry, task: &Task) -> String {
    let confidence = task
        .confidence
        .map(|c| format!("{:.2}", f64::from_bits(c)))
        .unwrap_or_default();
    let context = match &task.status {
        TaskStatus::Paused(r) if !r.context.is_null() => Some(r.context.to_string()),
        _ => None,
    };
    render_show(registry, task, &confidence, "", context.as_deref())
}

#[test]
fn show_renders_a_paused_task_with_the_question_and_its_dependencies() {
    let (mut registry, survey_id, design_id, _) = a_registry();
    let mut context = serde_json::Map::new();
    context.insert("risk".to_string(), serde_json::Value::String("high".to_string()));
    registry.get_mut(design_id).unwrap().pause(
        ApprovalRequest::new("proceed?", a_trace()).with_context(serde_json::Value::Object(context)),
    );

    let rendered = show(&registry, registry.get(design_id).unwrap());
    assert!(rendered.contains("paused"));
    assert!(rendered.contains("proceed?"));
    assert!(rendered.contains("\"risk\""));
    // The dependency is named and its state shown, not just its id.
    assert!(rendered.contains(&short(survey_id)));
    assert!(rendered.contains("survey [pending]"));
}

#[test]
fn show_names_a_dependency_that_is_missing_from_the_checkpoint() {
    let orphan = Task::new("orphan").depends_on(uuid::Uuid::new_v4().as_u128());
    let registry = TaskRegistry::from_tasks(vec![orphan]);
    let task = registry.pending()[0];

    assert!(show(&registry, task).contains("<not in this checkpoint>"));
}

#[test]
fn show_lays_out_one_padded_line_per_field() {
    let (registry, survey_id, _, _) = a_registry();
    let task = registry.get(survey_id).unwrap().clone().with_confidence(0.5f64.to_bits());
    let rendered = show(&registry, &task);
    let lines: Vec<&str> = rendered.lines().collect();
    assert_eq!(lines[0], format!("id            {}", uuid_text(survey_id)));
    assert_eq!(lines[1], "title         survey");
    assert_eq!(lines[2], "status        pending");
    assert_eq!(lines[3], "priority      high");
    assert_eq!(lines[4], "assigned to   \u{2014}");
    assert_eq!(lines[5], "confidence    0.50");
    assert!(lines[6].starts_with("created       "));
    assert!(lines[7].starts_with("updated       "));
    assert_eq!(lines[8], "depends on    \u{2014}");
    assert_eq!(lines.len(), 9);
    assert!(!rendered.ends_with('\n'));
}

#[test]
fn show_prints_a_failure_with_its_trace_and_error() {
    let mut task = Task::new("ship");
    let trace = a_trace();
    task.fail(TraceErr::Other("disk full".to_string()), trace);
    let registry = TaskRegistry::from_tasks(vec![task.clone()]);
    let rendered = show(&registry, &task);
    assert!(rendered.contains(&format!("trace         {}", trace.to_text())));
    assert!(rendered.contains("error         disk full"));
    assert!(rendered.contains("status        failed"));
}

#[test]
fn show_prints_the_epoch_in_rfc3339() {
    let mut task = Task::new("old");
    task.created_at = trace_lang::clock::Timestamp { secs: 0, nanos: 0 };
    task.updated_at = trace_lang::clock::Timestamp { secs: 86_400, nanos: 250_000_000 };
    let registry = TaskRegistry::from_tasks(vec![task.clone()]);
    let rendered = show(&registry, &task);
    assert!(rendered.contains("created       1970-01-01T00:00:00+00:00"));
    assert!(rendered.contains("updated       1970-01-02T00:00:00.250+00:00"));
}

#[test]
fn chain_renders_upstream_tasks_nearest_first() {
    let (mut registry, survey_id, design_id, _) = a_registry();
    registry.get_mut(survey_id).unwrap().complete(a_trace());
    let target = a_trace();
    registry.get_mut(design_id).unwrap().complete(target);

    let rendered = render_chain(&chain(&registry, &target.to_text()).unwrap());
    assert!(rendered.starts_with(&target.to_text()));
    assert!(rendered.contains("\n  produced by  design [done]\n"));
    assert!(rendered.contains("upstream, nearest first\n"));
    assert!(rendered.contains("survey"));
    assert!(!rendered.ends_with('\n'));
}

#[test]
fn short_is_the_first_eight_hex_characters() {
    assert_eq!(short(0x1234abcd_0000_0000_0000_000000000000), "1234abcd");
}

#[test]
fn every_status_has_a_label_and_the_terminal_ones_carry_a_trace() {
    let trace = a_trace();
    let cases: Vec<(TaskStatus, &str, bool)> = vec![
        (TaskStatus::Pending, "pending", false),
        (TaskStatus::Running, "running", false),
        (TaskStatus::Done(trace), "done", true),
        (
            TaskStatus::Failed {
                error: TraceErr::other("x"),
                trace,
            },
            "failed",
            true,
        ),
        (
            TaskStatus::Paused(ApprovalRequest::new("?", trace)),
            "paused",
            true,
        ),
    ];

    for (status, label, has_trace) in cases {
        assert_eq!(status_label(&status), label);
        assert_eq!(trace_of(&status).is_some(), has_trace, "{label}");
    }
}

#[test]
fn a_summary_carries_the_trace_a_done_task_points_at() {
    let mut task = Task::new("ship it");
    let trace = a_trace();
    task.complete(trace);

    let summary = TaskSummary::from_task(&task);
    assert_eq!(summary.status, "done");
    assert_eq!(summary.trace, Some(trace));
    assert!(summary.row().contains("ship it"));
}

#[test]
fn an_empty_diff_reports_itself_as_empty() {
    assert!(DiffReport::default().is_empty());
    assert!(!DiffReport {
        added: vec![TaskSummary::from_task(&Task::new("new"))],
        ..Default::default()
    }
    .is_empty());
}

#[test]
fn status_filters_name_their_labels() {
    assert_eq!(StatusFilter::Pending.label(), "pending");
    assert_eq!(StatusFilter::Running.label(), "running");
    assert_eq!(StatusFilter::Done.label(), "done");
    assert_eq!(StatusFilter::Failed.label(), "failed");
    assert_eq!(StatusFilter::Paused.label(), "paused");
}
