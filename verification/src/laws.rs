//! Properties the library keeps across its operations, stated over the
//! same specifications the operations' contracts use.

use vstd::prelude::*;
use crate::agent::{hook_spec, AgentContext, Hook};
use crate::approval::ApprovalRequest;
use crate::binary64;
use crate::graph::{is_walk, reaches, steps_to};
use crate::error::TraceErr;
use crate::inspect::{self, label_of, DiffReport, StatusChange};
use crate::ordering;
use crate::registry::{self, has_id, id_index, ids_distinct, inserted, TaskRegistry};
use crate::step::Step;
use crate::task::{Task, TaskStatus};
use crate::trace::{self, TraceRef};

verus! {

/// With a budget, "no steps remaining" and "budget exhausted" are the same
/// fact, and the steps remaining never exceed the budget.
pub proof fn law_budget_views_agree(ctx: AgentContext)
    requires
        ctx.budget is Some,
    ensures
        (ctx.remaining_spec() == Some(0usize)) == ctx.exhausted_spec(),
        ctx.remaining_spec()->0 <= ctx.budget->0,
{
}

/// A clamped confidence of any number, `NaN` included, lies in
/// `[0.0, 1.0]` and is a number.
pub proof fn law_confidence_in_unit_range(x: u64)
    ensures
        !binary64::is_nan(binary64::clamp_unit_spec(x)),
        !binary64::lt(binary64::clamp_unit_spec(x), binary64::ZERO),
        !binary64::lt(binary64::ONE, binary64::clamp_unit_spec(x)),
{
}

/// After inserting a task, looking up its id finds exactly that task; ids
/// stay distinct, and the registry grows only for a new id.
pub proof fn law_insert_then_get(tasks: Seq<Task>, task: Task)
    requires
        ids_distinct(tasks),
    ensures
        ids_distinct(inserted(tasks, task)),
        has_id(inserted(tasks, task), task.id),
        inserted(tasks, task)[id_index(inserted(tasks, task), task.id)] == task,
        inserted(tasks, task).len() == tasks.len() + (if has_id(tasks, task.id) {
            0int
        } else {
            1int
        }),
{
    let out = inserted(tasks, task);
    if has_id(tasks, task.id) {
        let k = id_index(tasks, task.id);
        assert(out[k].id == task.id);
        let c = id_index(out, task.id);
        if c != k {
            if c < k {
                assert(out[c].id != out[k].id);
            } else {
                assert(out[k].id != out[c].id);
            }
        }
    } else {
        let k = tasks.len() as int;
        assert(out[k].id == task.id);
        let c = id_index(out, task.id);
        if c != k {
            assert(tasks[c].id == task.id);
        }
    }
}

/// Listing by priority never puts a lower priority before a higher one.
pub proof fn law_priority_listing_is_non_increasing(tasks: Seq<Task>, p: Seq<usize>)
    requires
        ordering::is_stable_ranking(registry::priority_keys(tasks), p),
    ensures
        forall|i: int, j: int|
            0 <= i < j < p.len() ==> (#[trigger] tasks[p[i] as int]).priority.rank_spec() >= (
            #[trigger] tasks[p[j] as int]).priority.rank_spec(),
{
    let keys = registry::priority_keys(tasks);
    assert forall|i: int, j: int| 0 <= i < j < p.len() implies (
    #[trigger] tasks[p[i] as int]).priority.rank_spec() >= (
    #[trigger] tasks[p[j] as int]).priority.rank_spec() by {
        assert(!ordering::key_gt(keys[p[j] as int], keys[p[i] as int]));
    }
}

/// Bottlenecks come slowest first.
pub proof fn law_bottlenecks_are_slowest_first(steps: Seq<Step>, p: Seq<usize>)
    requires
        ordering::is_stable_ranking(trace::slowness_keys(steps), p),
    ensures
        forall|i: int, j: int|
            0 <= i < j < p.len() ==> trace::duration_nanos(#[trigger] steps[p[i] as int])
                >= trace::duration_nanos(#[trigger] steps[p[j] as int]),
{
    let keys = trace::slowness_keys(steps);
    assert forall|i: int, j: int| 0 <= i < j < p.len() implies trace::duration_nanos(
        #[trigger] steps[p[i] as int],
    ) >= trace::duration_nanos(#[trigger] steps[p[j] as int]) by {
        assert(!ordering::key_gt(keys[p[j] as int], keys[p[i] as int]));
        let (a, b) = (steps[p[i] as int], steps[p[j] as int]);
        if let Some(d) = a.duration {
            crate::duration::lemma_view_fits(d);
        }
        if let Some(d) = b.duration {
            crate::duration::lemma_view_fits(d);
        }
    }
}

/// Pausing a task and then approving it returns it to `Pending`, with
/// everything but the update time as it was.
pub proof fn law_approval_returns_task_to_pending(t0: Task, request: ApprovalRequest, t1: Task, t2: Task)
    requires
        t1 == (Task { status: TaskStatus::Paused(request), updated_at: t1.updated_at, ..t0 }),
        t2 == (Task { status: TaskStatus::Pending, updated_at: t2.updated_at, ..t1 }),
    ensures
        t2 == (Task { status: TaskStatus::Pending, updated_at: t2.updated_at, ..t0 }),
{
}

/// Pausing a task and then rejecting it fails the task against the trace
/// the request showed the human, and unassigns it.
pub proof fn law_rejection_fails_against_the_shown_trace(
    t0: Task,
    request: ApprovalRequest,
    t1: Task,
    t2: Task,
    by: Seq<char>,
    reason: Seq<char>,
)
    requires
        t1 == (Task { status: TaskStatus::Paused(request), updated_at: t1.updated_at, ..t0 }),
        crate::task::denied(t2.status, request.trace, by, reason),
        t2 == (Task {
            status: t2.status,
            assigned_to: None,
            updated_at: t2.updated_at,
            ..t1
        }),
    ensures
        t2.status matches TaskStatus::Failed { trace, .. } && trace == request.trace,
        t2.id == t0.id && t2.assigned_to is None,
{
}

/// A paused task is never ready, and neither is a task waiting on a
/// dependency that failed.
pub proof fn law_blocked_tasks_are_not_ready(tasks: Seq<Task>, t: Task, k: int)
    requires
        ids_distinct(tasks),
        t.status is Paused || (0 <= k < t.depends_on@.len() && has_id(tasks, t.depends_on@[k])
            && tasks[id_index(tasks, t.depends_on@[k])].status is Failed),
    ensures
        !registry::is_ready(tasks, t),
{
    if !(t.status is Paused) {
        assert(!registry::done_in(tasks, t.depends_on@[k]));
    }
}

/// Where a request points, once stamped with `trace` when unattached.
pub open spec fn stamped(r: ApprovalRequest, trace: TraceRef) -> ApprovalRequest {
    ApprovalRequest {
        trace: if r.attached_spec() {
            r.trace
        } else {
            trace
        },
        ..r
    }
}

/// A request is stamped once: stamping it with a real trace and then with
/// any other leaves the first stamp.
pub proof fn law_request_is_stamped_once(r: ApprovalRequest, first: TraceRef, second: TraceRef)
    requires
        first.0 != 0,
    ensures
        stamped(stamped(r, first), second) == stamped(r, first),
        stamped(r, first).attached_spec(),
{
}

/// A listing is sorted throughout, not only between neighbours: no entry
/// is listed strictly before any entry in front of it.
pub proof fn law_listing_is_sorted(keys: Seq<ordering::ListKey>, p: Seq<usize>, i: int, j: int)
    requires
        ordering::is_listing(keys, p),
        0 <= i < j < p.len(),
    ensures
        !ordering::precedes(keys[p[j] as int], keys[p[i] as int]),
    decreases j - i,
{
    if j > i + 1 {
        law_listing_is_sorted(keys, p, i, j - 1);
        assert(!ordering::precedes(keys[p[(j - 1) + 1] as int], keys[p[j - 1] as int]));
        ordering::lemma_not_precedes_transitive(keys[p[i] as int], keys[p[j - 1] as int], keys[p[j] as int]);
    } else {
        assert(!ordering::precedes(keys[p[i + 1] as int], keys[p[i] as int]));
    }
}

/// A trace is downstream of another exactly when that other is upstream
/// of it: the same recorded edges, walked the other way.
pub proof fn law_downstream_mirrors_upstream(edges: Seq<(TraceRef, TraceRef)>, a: TraceRef, b: TraceRef)
    ensures
        reaches(edges, true, a, b) <==> reaches(edges, false, b, a),
{
    if reaches(edges, true, a, b) {
        let p = choose|p: Seq<TraceRef>| #[trigger] is_walk(edges, true, p) && p[0] == a && p.last() == b;
        let q = p.reverse();
        assert forall|i: int| 0 <= i < q.len() - 1 implies steps_to(edges, false, #[trigger] q[i], q[i + 1]) by {
            let k = p.len() - 2 - i;
            assert(q[i] == p[k + 1] && q[i + 1] == p[k]);
            assert(steps_to(edges, true, p[k], p[k + 1]));
        }
        assert(is_walk(edges, false, q) && q[0] == b && q.last() == a);
    }
    if reaches(edges, false, b, a) {
        let p = choose|p: Seq<TraceRef>| #[trigger] is_walk(edges, false, p) && p[0] == b && p.last() == a;
        let q = p.reverse();
        assert forall|i: int| 0 <= i < q.len() - 1 implies steps_to(edges, true, #[trigger] q[i], q[i + 1]) by {
            let k = p.len() - 2 - i;
            assert(q[i] == p[k + 1] && q[i + 1] == p[k]);
            assert(steps_to(edges, false, p[k], p[k + 1]));
        }
        assert(is_walk(edges, true, q) && q[0] == a && q.last() == b);
    }
}

/// A registry compared with itself shows no change: nothing added, nothing
/// removed, and no task moved, since each task keeps its own status label.
pub proof fn law_diff_of_itself_is_empty(r: TaskRegistry, report: DiffReport)
    requires
        r.wf(),
        inspect::is_listed(inspect::absent_from(r.task_seq(), r.task_seq()), false, report.added@),
        inspect::is_listed(inspect::absent_from(r.task_seq(), r.task_seq()), false, report.removed@),
        inspect::changes_listed(r.task_seq(), r.task_seq(), report.changed@),
    ensures
        report.added@.len() == 0,
        report.removed@.len() == 0,
        report.changed@.len() == 0,
{
    r.lemma_ids_distinct();
    let tasks = r.task_seq();
    let gone = inspect::absent_from(tasks, tasks);
    if gone.len() > 0 {
        let pred = |t: Task| !has_id(tasks, t.id);
        tasks.lemma_filter_pred(pred, 0);
        assert(gone.contains(gone[0]));
        tasks.lemma_filter_contains_rev(pred, gone[0]);
    }
    let moved = inspect::moved_of(tasks, tasks);
    if moved.len() > 0 {
        let pred = |t: Task| inspect::moved(tasks, t);
        tasks.lemma_filter_pred(pred, 0);
        assert(moved.contains(moved[0]));
        tasks.lemma_filter_contains_rev(pred, moved[0]);
        let i = choose|i: int| 0 <= i < tasks.len() && tasks[i] == moved[0];
        let j = id_index(tasks, moved[0].id);
        assert(tasks[j].id == tasks[i].id);
        if i < j {
            assert(tasks[i].id != tasks[j].id);
        } else if j < i {
            assert(tasks[j].id != tasks[i].id);
        }
    }
}

/// A task that failed before and has failed again has not changed status,
/// whatever the two errors were.
pub proof fn law_failing_again_is_not_a_status_change(before: Seq<Task>, t: Task)
    requires
        has_id(before, t.id),
        before[id_index(before, t.id)].status is Failed,
        t.status is Failed,
    ensures
        !inspect::moved(before, t),
{
}

/// The low-confidence steps of a run are exactly its steps that recorded
/// a confidence strictly below the threshold: a step with no confidence
/// never counts, and every step scored below the threshold does.
pub proof fn law_low_confidence_steps_scored_below(steps: Seq<Step>, threshold: u64)
    ensures
        forall|k: int|
            0 <= k < trace::below_of(steps, threshold).len() ==> (#[trigger] trace::below_of(steps, threshold)[k]).confidence is Some && binary64::lt(trace::below_of(steps, threshold)[k].confidence->0, threshold),
        forall|i: int|
            0 <= i < steps.len() && (#[trigger] steps[i]).confidence is Some && binary64::lt(steps[i].confidence->0, threshold) ==> trace::below_of(steps, threshold).contains(steps[i]),
{
    let pred = |s: Step| trace::scored_below(s, threshold);
    assert forall|k: int| 0 <= k < trace::below_of(steps, threshold).len() implies (#[trigger] trace::below_of(steps, threshold)[k]).confidence is Some && binary64::lt(trace::below_of(steps, threshold)[k].confidence->0, threshold) by {
        steps.lemma_filter_pred(pred, k);
    }
    assert forall|i: int|
        0 <= i < steps.len() && (#[trigger] steps[i]).confidence is Some && binary64::lt(steps[i].confidence->0, threshold) implies trace::below_of(steps, threshold).contains(steps[i]) by {
        steps.lemma_filter_contains(pred, i);
    }
}

/// Which hook a finished run calls for, with the run's `error` and the
/// steps it recorded: a run that failed with any error but
/// `BudgetExhausted` consults `on_step_failure`, whatever its steps scored;
/// a budget error consults `on_budget_exceeded`; `on_low_confidence` is
/// consulted exactly for a run with no error and a step that recorded a
/// confidence below the threshold.
pub proof fn law_errors_take_precedence_over_confidence(
    error: Option<TraceErr>,
    steps: Seq<Step>,
    threshold: u64,
)
    ensures
        (error matches Some(e) && !(e is BudgetExhausted)) ==> hook_spec(
            error,
            trace::below_of(steps, threshold).len() > 0,
        ) == Hook::StepFailure,
        (error matches Some(e) && e is BudgetExhausted) ==> hook_spec(
            error,
            trace::below_of(steps, threshold).len() > 0,
        ) == Hook::BudgetExceeded,
        hook_spec(error, trace::below_of(steps, threshold).len() > 0) == Hook::LowConfidence <==> (
        error is None && exists|i: int|
            0 <= i < steps.len() && (#[trigger] steps[i]).confidence is Some && binary64::lt(steps[i].confidence->0, threshold)),
        hook_spec(error, trace::below_of(steps, threshold).len() > 0) == Hook::Healthy <==> (error is None
            && forall|i: int|
            0 <= i < steps.len() ==> !((#[trigger] steps[i]).confidence is Some && binary64::lt(steps[i].confidence->0, threshold))),
{
    law_low_confidence_steps_scored_below(steps, threshold);
    let below = trace::below_of(steps, threshold);
    if below.len() > 0 {
        assert(below[0].confidence is Some && binary64::lt(below[0].confidence->0, threshold));
        assert(below.contains(below[0]));
        steps.lemma_filter_contains_rev(|s: Step| trace::scored_below(s, threshold), below[0]);
    }
    if exists|i: int|
        0 <= i < steps.len() && (#[trigger] steps[i]).confidence is Some && binary64::lt(steps[i].confidence->0, threshold) {
        let i = choose|i: int|
            0 <= i < steps.len() && (#[trigger] steps[i]).confidence is Some && binary64::lt(steps[i].confidence->0, threshold);
        assert(below.contains(steps[i]));
    }
}

/// The rejected branches of a run are exactly its steps whose outcome is
/// `Rejected`, in execution order.
pub proof fn law_rejected_branches_are_the_rejected_steps(steps: Seq<Step>)
    ensures
        forall|k: int|
            0 <= k < trace::rejected_of(steps).len() ==> (#[trigger] trace::rejected_of(steps)[k]).outcome is Rejected,
        forall|i: int|
            0 <= i < steps.len() && (#[trigger] steps[i]).outcome is Rejected ==> trace::rejected_of(steps).contains(
                steps[i],
            ),
{
    let pred = |s: Step| s.rejected_spec();
    assert forall|k: int| 0 <= k < trace::rejected_of(steps).len() implies (#[trigger] trace::rejected_of(
        steps,
    )[k]).outcome is Rejected by {
        steps.lemma_filter_pred(pred, k);
    }
    assert forall|i: int|
        0 <= i < steps.len() && (#[trigger] steps[i]).outcome is Rejected implies trace::rejected_of(
            steps,
        ).contains(steps[i]) by {
        steps.lemma_filter_contains(pred, i);
    }
}

/// In the priciest-first ranking, no step is listed before a step that
/// recorded a strictly higher dollar figure (`NaN` figures compare with
/// nothing).
pub proof fn law_priciest_dollars_never_increase(steps: Seq<Step>, p: Seq<usize>)
    requires
        ordering::is_stable_ranking(trace::price_keys(steps), p),
    ensures
        forall|i: int, j: int|
            0 <= i < j < p.len() && (#[trigger] steps[p[i] as int]).cost is Some && (
            #[trigger] steps[p[j] as int]).cost is Some && steps[p[i] as int].cost->0.dollars is Some
                && steps[p[j] as int].cost->0.dollars is Some ==> !binary64::lt(
                steps[p[i] as int].cost->0.dollars->0,
                steps[p[j] as int].cost->0.dollars->0,
            ),
{
    let keys = trace::price_keys(steps);
    assert forall|i: int, j: int|
        0 <= i < j < p.len() && (#[trigger] steps[p[i] as int]).cost is Some && (
        #[trigger] steps[p[j] as int]).cost is Some && steps[p[i] as int].cost->0.dollars is Some
            && steps[p[j] as int].cost->0.dollars is Some implies !binary64::lt(
        steps[p[i] as int].cost->0.dollars->0,
        steps[p[j] as int].cost->0.dollars->0,
    ) by {
        assert(!ordering::key_gt(keys[p[j] as int], keys[p[i] as int]));
        let da = steps[p[i] as int].cost->0.dollars->0;
        let db = steps[p[j] as int].cost->0.dollars->0;
        assert(binary64::magnitude(da) < 0x8000_0000_0000_0000);
        assert(binary64::magnitude(db) < 0x8000_0000_0000_0000);
    }
}

/// `a + b`, or `u64::MAX` if that overflows.
pub open spec fn capped_sum(a: u64, b: u64) -> int {
    if a + b <= u64::MAX {
        a + b
    } else {
        u64::MAX as int
    }
}

/// In the priciest-first ranking, steps that recorded a cost come before
/// steps that did not; and between two steps with the same dollar figure,
/// the one with more total tokens (input plus output, capped at
/// `u64::MAX`) comes first.
pub proof fn law_priciest_ties_break_on_total_tokens(steps: Seq<Step>, p: Seq<usize>)
    requires
        ordering::is_stable_ranking(trace::price_keys(steps), p),
    ensures
        forall|i: int, j: int|
            0 <= i < j < p.len() && (#[trigger] steps[p[i] as int]).cost is None ==> (
            #[trigger] steps[p[j] as int]).cost is None,
        forall|i: int, j: int|
            0 <= i < j < p.len() && (#[trigger] steps[p[i] as int]).cost is Some && (#[trigger] steps[p[j] as int]).cost is Some && steps[p[i] as int].cost->0.dollars == steps[p[j] as int].cost->0.dollars
                ==> capped_sum(steps[p[i] as int].cost->0.input_tokens, steps[p[i] as int].cost->0.output_tokens) >= capped_sum(steps[p[j] as int].cost->0.input_tokens, steps[p[j] as int].cost->0.output_tokens),
{
    let keys = trace::price_keys(steps);
    assert forall|i: int, j: int|
        0 <= i < j < p.len() && (#[trigger] steps[p[i] as int]).cost is None implies (
        #[trigger] steps[p[j] as int]).cost is None by {
        assert(!ordering::key_gt(keys[p[j] as int], keys[p[i] as int]));
        if let Some(b) = steps[p[j] as int].cost {
            if let Some(d) = b.dollars {
                assert(binary64::magnitude(d) < 0x8000_0000_0000_0000);
            }
        }
    }
    assert forall|i: int, j: int|
        0 <= i < j < p.len() && (#[trigger] steps[p[i] as int]).cost is Some && (#[trigger] steps[p[j] as int]).cost is Some && steps[p[i] as int].cost->0.dollars == steps[p[j] as int].cost->0.dollars implies capped_sum(steps[p[i] as int].cost->0.input_tokens, steps[p[i] as int].cost->0.output_tokens) >= capped_sum(steps[p[j] as int].cost->0.input_tokens, steps[p[j] as int].cost->0.output_tokens) by {
        assert(!ordering::key_gt(keys[p[j] as int], keys[p[i] as int]));
        let a = steps[p[i] as int].cost->0;
        if let Some(d) = a.dollars {
            assert(binary64::magnitude(d) < 0x8000_0000_0000_0000);
        }
    }
}

/// Some task of `tasks` has id `id` and is `Done`.
pub open spec fn listed_done(tasks: Seq<Task>, id: u128) -> bool {
    exists|j: int| 0 <= j < tasks.len() && (#[trigger] tasks[j]).id == id && tasks[j].status is Done
}

/// A ready task is `Pending`, and every task it depends on is in the
/// registry and `Done`. A running, done, failed or paused task is never
/// ready.
pub proof fn law_ready_tasks_are_pending_with_done_dependencies(tasks: Seq<Task>)
    ensures
        forall|k: int|
            0 <= k < registry::ready_of(tasks).len() ==> {
                let t = #[trigger] registry::ready_of(tasks)[k];
                &&& t.status is Pending
                &&& forall|d: int| 0 <= d < t.depends_on@.len() ==> listed_done(tasks, #[trigger] t.depends_on@[d])
            },
{
    let pred = |t: Task| registry::is_ready(tasks, t);
    assert forall|k: int| 0 <= k < registry::ready_of(tasks).len() implies {
        let t = #[trigger] registry::ready_of(tasks)[k];
        &&& t.status is Pending
        &&& forall|d: int| 0 <= d < t.depends_on@.len() ==> listed_done(tasks, #[trigger] t.depends_on@[d])
    } by {
        tasks.lemma_filter_pred(pred, k);
        let t = registry::ready_of(tasks)[k];
        assert forall|d: int| 0 <= d < t.depends_on@.len() implies listed_done(tasks, #[trigger] t.depends_on@[d]) by {
            assert(registry::done_in(tasks, t.depends_on@[d]));
            let j = id_index(tasks, t.depends_on@[d]);
            assert(tasks[j].id == t.depends_on@[d]);
        }
    }
}

/// Every pending task whose dependencies are all in the registry and
/// `Done` is ready.
pub proof fn law_pending_tasks_with_done_dependencies_are_ready(tasks: Seq<Task>, i: int)
    requires
        ids_distinct(tasks),
        0 <= i < tasks.len(),
        tasks[i].status is Pending,
        forall|d: int| 0 <= d < tasks[i].depends_on@.len() ==> listed_done(tasks, #[trigger] tasks[i].depends_on@[d]),
    ensures
        registry::ready_of(tasks).contains(tasks[i]),
{
    let t = tasks[i];
    assert forall|d: int| 0 <= d < t.depends_on@.len() implies registry::done_in(
        tasks,
        #[trigger] t.depends_on@[d],
    ) by {
        let j = choose|j: int|
            0 <= j < tasks.len() && (#[trigger] tasks[j]).id == t.depends_on@[d] && tasks[j].status is Done;
        let c = id_index(tasks, t.depends_on@[d]);
        assert(tasks[c].id == tasks[j].id);
        if c < j {
            assert(tasks[c].id != tasks[j].id);
        } else if j < c {
            assert(tasks[j].id != tasks[c].id);
        }
    }
    tasks.lemma_filter_contains(|t: Task| registry::is_ready(tasks, t), i);
}

/// Every task present in both checkpoints whose status label differs is
/// listed among the changes, from its old label to its new one, whichever
/// label it moved to; and every listed change is a real move.
pub proof fn law_every_moved_task_is_listed(
    before: Seq<Task>,
    after: Seq<Task>,
    out: Seq<StatusChange>,
    a: int,
    b: int,
)
    requires
        ids_distinct(before),
        inspect::changes_listed(before, after, out),
        0 <= a < after.len(),
        0 <= b < before.len(),
        before[b].id == after[a].id,
        label_of(before[b].status) != label_of(after[a].status),
    ensures
        exists|k: int|
            0 <= k < out.len() && (#[trigger] out[k]).id == after[a].id && out[k].from@ == label_of(
                before[b].status,
            ) && out[k].to@ == label_of(after[a].status),
        forall|k: int| 0 <= k < out.len() ==> (#[trigger] out[k]).from@ != out[k].to@,
{
    let t = after[a];
    let c = id_index(before, t.id);
    assert(has_id(before, t.id));
    assert(before[c].id == before[b].id);
    if c < b {
        assert(before[c].id != before[b].id);
    } else if b < c {
        assert(before[b].id != before[c].id);
    }
    let pred = |x: Task| inspect::moved(before, x);
    after.lemma_filter_contains(pred, a);
    let moved = inspect::moved_of(before, after);
    let m = choose|m: int| 0 <= m < moved.len() && moved[m] == t;
    let p = choose|p: Seq<usize>|
        #[trigger] ordering::is_listing(inspect::task_keys(moved, false), p) && out.len() == p.len()
            && forall|k: int| 0 <= k < p.len() ==> inspect::change_of(#[trigger] out[k], before, moved[p[k] as int]);
    ordering::lemma_every_position_listed(p, inspect::task_keys(moved, false).len());
    assert(ordering::lists_index(p, m));
    let k = choose|k: int| 0 <= k < p.len() && #[trigger] p[k] as int == m;
    assert(inspect::change_of(out[k], before, moved[p[k] as int]));
    assert forall|k: int| 0 <= k < out.len() implies (#[trigger] out[k]).from@ != out[k].to@ by {
        assert(inspect::change_of(out[k], before, moved[p[k] as int]));
        after.lemma_filter_pred(pred, p[k] as int);
    }
}

} // verus!
