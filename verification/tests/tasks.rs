use trace_lang::{
    ApprovalDecision, ApprovalRequest, Priority, Task, TaskRegistry, TaskStatus, TraceErr, TraceRef,
};

fn a_trace() -> TraceRef {
    TraceRef(uuid::Uuid::new_v4().as_u128())
}

fn a_request() -> ApprovalRequest {
    ApprovalRequest::new("proceed?", a_trace())
}

#[test]
fn priority_ordering_is_low_to_critical() {
    assert!(Priority::Low < Priority::Normal);
    assert!(Priority::Normal < Priority::High);
    assert!(Priority::High < Priority::Critical);
}

#[test]
fn priorities_display_in_lowercase() {
    assert_eq!(Priority::Low.as_str(), "low");
    assert_eq!(Priority::Normal.as_str(), "normal");
    assert_eq!(Priority::High.as_str(), "high");
    assert_eq!(Priority::Critical.as_str(), "critical");
}

#[test]
fn new_task_starts_pending_with_normal_priority() {
    let t = Task::new("do the thing");
    assert!(t.is_pending());
    assert_eq!(t.priority, Priority::Normal);
    assert!(t.assigned_to.is_none());
}

#[test]
fn assign_to_transitions_to_running_and_sets_assignee() {
    let mut t = Task::new("x");
    t.assign_to("agent-1");
    assert_eq!(t.status, TaskStatus::Running);
    assert_eq!(t.assigned_to.as_deref(), Some("agent-1"));
}

#[test]
fn complete_transitions_to_done_and_clears_assignee() {
    let mut t = Task::new("x");
    t.assign_to("agent-1");
    t.complete(a_trace());
    assert!(t.is_done());
    assert!(t.assigned_to.is_none());
}

#[test]
fn fail_transitions_to_failed_and_clears_assignee() {
    let mut t = Task::new("x");
    t.assign_to("agent-1");
    t.fail(TraceErr::other("boom"), a_trace());
    assert!(t.is_failed());
    assert!(t.assigned_to.is_none());
}

#[test]
fn depends_on_appends_dependency_ids() {
    let dep = uuid::Uuid::new_v4().as_u128();
    let t = Task::new("x").depends_on(dep);
    assert_eq!(t.depends_on, vec![dep]);
}

#[test]
fn with_confidence_clamps_into_unit_range() {
    let t = Task::new("x").with_confidence(5.0f64.to_bits());
    assert_eq!(t.confidence, Some(1.0f64.to_bits()));
}

#[test]
fn task_resume_refuses_a_pending_task() {
    let mut t = Task::new("x");
    let err = t.resume(ApprovalDecision::approve("joe")).unwrap_err();
    assert!(t.is_pending());
    assert!(err.to_text().unwrap().ends_with(": it is not paused"));
}

#[test]
fn task_with_no_dependencies_is_ready_when_pending() {
    let registry = TaskRegistry::from_tasks(vec![Task::new("solo")]);
    assert_eq!(registry.ready_tasks().len(), 1);
}

#[test]
fn task_is_not_ready_until_dependency_is_done() {
    let dep = Task::new("dep");
    let dep_id = dep.id;
    let dependent = Task::new("dependent").depends_on(dep_id);

    let mut registry = TaskRegistry::from_tasks(vec![dep, dependent]);
    assert_eq!(registry.ready_tasks().len(), 1);
    assert_eq!(registry.ready_tasks()[0].title, "dep");

    registry.get_mut(dep_id).unwrap().complete(a_trace());

    let ready_titles: Vec<_> = registry.ready_tasks().iter().map(|t| &t.title).collect();
    assert_eq!(ready_titles, vec!["dependent"]);
}

#[test]
fn all_by_priority_sorts_critical_first() {
    let registry = TaskRegistry::from_tasks(vec![
        Task::new("low").with_priority(Priority::Low),
        Task::new("critical").with_priority(Priority::Critical),
        Task::new("normal"),
    ]);
    let ordered: Vec<_> = registry
        .all_by_priority()
        .iter()
        .map(|t| &t.title)
        .collect();
    assert_eq!(ordered, vec!["critical", "normal", "low"]);
}

#[test]
fn all_by_priority_is_always_sorted_non_increasing() {
    let mut seed: u64 = 12345;
    for round in 0..50 {
        let mut registry = TaskRegistry::new();
        for i in 0..(1 + round % 19) {
            seed = seed.wrapping_mul(6364136223846793005).wrapping_add(1442695040888963407);
            let p = match (seed >> 33) % 4 {
                0 => Priority::Low,
                1 => Priority::Normal,
                2 => Priority::High,
                _ => Priority::Critical,
            };
            registry.insert(Task::new(&format!("t{i}")).with_priority(p));
        }
        let ordered = registry.all_by_priority();
        for window in ordered.windows(2) {
            assert!(window[0].priority >= window[1].priority);
        }
    }
}

#[test]
fn insert_then_get_always_round_trips_by_id() {
    for title in ["a", "abc", "zzzzzzzzzzzzzzzzzzzz"] {
        let task = Task::new(title);
        let id = task.id;
        let mut registry = TaskRegistry::new();
        registry.insert(task);
        assert_eq!(registry.get(id).unwrap().title, title);
        assert_eq!(registry.total(), 1);
    }
}

#[test]
fn inserting_the_same_id_twice_replaces_the_task() {
    let task = Task::new("first");
    let id = task.id;
    let mut second = Task::new("second");
    second.id = id;
    let registry = TaskRegistry::from_tasks(vec![task, second]);
    assert_eq!(registry.total(), 1);
    assert_eq!(registry.get(id).unwrap().title, "second");
}

#[test]
fn pending_done_failed_partition_by_status() {
    let mut registry = TaskRegistry::from_tasks(vec![
        Task::new("pending"),
        Task::new("done"),
        Task::new("failed"),
    ]);
    let done_id = registry
        .pending()
        .iter()
        .find(|t| t.title == "done")
        .unwrap()
        .id;
    let failed_id = registry
        .pending()
        .iter()
        .find(|t| t.title == "failed")
        .unwrap()
        .id;

    registry.get_mut(done_id).unwrap().complete(a_trace());
    registry
        .get_mut(failed_id)
        .unwrap()
        .fail(TraceErr::other("x"), a_trace());

    assert_eq!(registry.pending().len(), 1);
    assert_eq!(registry.done().len(), 1);
    assert_eq!(registry.failed().len(), 1);
    assert_eq!(registry.total(), 3);
}

#[test]
fn pausing_moves_a_task_from_ready_to_paused() {
    let mut registry = TaskRegistry::from_tasks(vec![Task::new("refund")]);
    let id = registry.pending()[0].id;
    assert_eq!(registry.ready_tasks().len(), 1);

    registry.pause(id, a_request()).unwrap();

    assert!(registry.ready_tasks().is_empty());
    assert_eq!(registry.paused().len(), 1);
}

#[test]
fn approving_returns_the_task_to_the_ready_queue() {
    let mut registry = TaskRegistry::from_tasks(vec![Task::new("refund")]);
    let id = registry.pending()[0].id;
    registry.pause(id, a_request()).unwrap();

    registry.resume(id, ApprovalDecision::approve("joe")).unwrap();

    assert!(registry.paused().is_empty());
    assert_eq!(registry.ready_tasks().len(), 1);
}

#[test]
fn rejecting_fails_the_task_and_unblocks_nothing() {
    let blocker = Task::new("refund");
    let blocker_id = blocker.id;
    let dependent = Task::new("notify customer").depends_on(blocker_id);
    let mut registry = TaskRegistry::from_tasks(vec![blocker, dependent]);
    registry.pause(blocker_id, a_request()).unwrap();

    registry
        .resume(blocker_id, ApprovalDecision::reject("joe", "too large"))
        .unwrap();

    assert_eq!(registry.failed().len(), 1);
    assert!(registry.ready_tasks().is_empty());
}

#[test]
fn a_rejected_approval_fails_the_task_against_the_trace_the_human_saw() {
    let task = Task::new("delete production database");
    let task_id = task.id;
    let mut registry = TaskRegistry::from_tasks(vec![task]);
    let partial_trace = a_trace();
    registry
        .pause(task_id, ApprovalRequest::new("really?", partial_trace))
        .unwrap();
    registry
        .resume(task_id, ApprovalDecision::reject("joe", "absolutely not"))
        .unwrap();

    let failed = registry.get(task_id).unwrap();
    assert!(failed.is_failed());
    assert_eq!(
        failed.status,
        TaskStatus::Failed {
            error: TraceErr::approval_denied("joe", "absolutely not"),
            trace: partial_trace,
        }
    );
}

#[test]
fn an_unknown_task_cannot_be_paused_or_resumed() {
    let mut registry = TaskRegistry::new();
    let missing = uuid::Uuid::new_v4().as_u128();

    let err = registry.pause(missing, a_request()).unwrap_err();
    assert!(err.to_text().unwrap().starts_with("cannot pause unknown task "));
    assert!(registry
        .resume(missing, ApprovalDecision::approve("joe"))
        .is_err());
    assert_eq!(registry.total(), 0);
}

#[test]
fn resume_refuses_a_task_that_is_not_paused() {
    let mut registry = TaskRegistry::from_tasks(vec![Task::new("running")]);
    let id = registry.pending()[0].id;

    assert!(registry.resume(id, ApprovalDecision::approve("joe")).is_err());
    assert!(registry.get(id).unwrap().is_pending());
}

#[test]
fn a_paused_task_exposes_its_request() {
    let mut t = Task::new("x");
    assert!(t.approval_request().is_none());
    let request = ApprovalRequest::new("approve a $4,000 refund?", a_trace());
    t.pause(request.clone());
    assert!(t.is_paused());
    assert_eq!(t.approval_request(), Some(&request));
}
