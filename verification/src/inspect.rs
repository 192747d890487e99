//! Queries over a checkpointed task graph: what the `trace` inspector
//! lists, resolves, walks and compares.

use vstd::prelude::*;
use vstd::string::StringExecFns;
use crate::error::TraceErr;
use crate::ids;
use crate::ordering::{self, ListKey};
use crate::registry::{self, TaskRegistry};
use crate::task::{Task, TaskStatus};
use crate::text;
use crate::trace::{derefs, TraceRef};

verus! {

/// A status a listing can be narrowed to.
#[derive(Debug, Clone, Copy, PartialEq, Eq)]
pub enum StatusFilter {
    Pending,
    Running,
    Done,
    Failed,
    Paused,
}

/// The one-word label of a status.
pub open spec fn label_of(status: TaskStatus) -> Seq<char> {
    match status {
        TaskStatus::Pending => "pending"@,
        TaskStatus::Running => "running"@,
        TaskStatus::Done(_) => "done"@,
        TaskStatus::Failed { .. } => "failed"@,
        TaskStatus::Paused(_) => "paused"@,
    }
}

/// The label a filter selects.
pub open spec fn filter_label(f: StatusFilter) -> Seq<char> {
    match f {
        StatusFilter::Pending => "pending"@,
        StatusFilter::Running => "running"@,
        StatusFilter::Done => "done"@,
        StatusFilter::Failed => "failed"@,
        StatusFilter::Paused => "paused"@,
    }
}

impl StatusFilter {
    /// The status label this filter selects.
    pub fn label(self) -> (s: &'static str)
        ensures
            s@ == filter_label(self),
    {
        match self {
            StatusFilter::Pending => "pending",
            StatusFilter::Running => "running",
            StatusFilter::Done => "done",
            StatusFilter::Failed => "failed",
            StatusFilter::Paused => "paused",
        }
    }
}

/// A one-word status label.
pub fn status_label(status: &TaskStatus) -> (s: &'static str)
    ensures
        s@ == label_of(*status),
{
    match status {
        TaskStatus::Pending => "pending",
        TaskStatus::Running => "running",
        TaskStatus::Done(_) => "done",
        TaskStatus::Failed { .. } => "failed",
        TaskStatus::Paused(_) => "paused",
    }
}

/// The trace a status points back at, if any.
pub open spec fn trace_of_spec(status: TaskStatus) -> Option<TraceRef> {
    match status {
        TaskStatus::Done(t) => Some(t),
        TaskStatus::Failed { trace, .. } => Some(trace),
        TaskStatus::Paused(request) => Some(request.trace),
        _ => None,
    }
}

/// The execution trace a terminal or paused status points back at.
pub fn trace_of(status: &TaskStatus) -> (r: Option<&TraceRef>)
    ensures
        match r {
            Some(t) => trace_of_spec(*status) == Some(*t),
            None => trace_of_spec(*status) is None,
        },
{
    match status {
        TaskStatus::Done(trace) => Some(trace),
        TaskStatus::Failed { trace, .. } => Some(trace),
        TaskStatus::Paused(request) => Some(&request.trace),
        TaskStatus::Pending => None,
        TaskStatus::Running => None,
    }
}

/// The first eight hexadecimal digits of an id.
pub open spec fn short_spec(id: u128) -> Seq<char> {
    ids::simple_hex_spec(id).take(8)
}

/// The first eight hexadecimal digits of `id`: enough to identify a task
/// by eye, and to resolve it.
pub fn short(id: u128) -> (s: String)
    ensures
        s@ == short_spec(id),
{
    let hex = ids::simple_hex(id);
    proof {
        assert(hex@.len() == 32);
    }
    hex.as_str().substring_char(0, 8).to_owned()
}

/// The text views of an optional string.
pub open spec fn opt_text(o: Option<String>) -> Option<Seq<char>> {
    match o {
        Some(s) => Some(s@),
        None => None,
    }
}

/// Just enough of a task to identify it in a list or a chain.
#[derive(Debug, Clone, PartialEq)]
pub struct TaskSummary {
    pub id: u128,
    pub title: String,
    pub status: String,
    pub priority: String,
    pub assigned_to: Option<String>,
    pub trace: Option<TraceRef>,
}

/// `s` summarizes `t`.
pub open spec fn summarizes(s: TaskSummary, t: Task) -> bool {
    &&& s.id == t.id
    &&& s.title@ == t.title@
    &&& s.status@ == label_of(t.status)
    &&& s.priority@ == t.priority.name_spec()
    &&& opt_text(s.assigned_to) == opt_text(t.assigned_to)
    &&& s.trace == trace_of_spec(t.status)
}

fn copy_text(o: &Option<String>) -> (r: Option<String>)
    ensures
        opt_text(r) == opt_text(*o),
{
    match o {
        Some(s) => Some(s.clone()),
        None => None,
    }
}

impl TaskSummary {
    /// The summary of `task`.
    pub fn from_task(task: &Task) -> (s: TaskSummary)
        ensures
            summarizes(s, *task),
    {
        TaskSummary {
            id: task.id,
            title: task.title.clone(),
            status: status_label(&task.status).to_owned(),
            priority: task.priority.as_str().to_owned(),
            assigned_to: copy_text(&task.assigned_to),
            trace: match trace_of(&task.status) {
                Some(t) => Some(*t),
                None => None,
            },
        }
    }
}

/// What `chain` found: a trace, the task it belongs to, and everything that
/// task waited on, transitively.
#[derive(Debug, Clone, PartialEq)]
pub struct ChainReport {
    pub trace: TraceRef,
    pub task: TaskSummary,
    /// Nearest dependency first.
    pub upstream: Vec<TaskSummary>,
}

/// A task present in both checkpoints whose status moved.
#[derive(Debug, Clone, PartialEq)]
pub struct StatusChange {
    pub id: u128,
    pub title: String,
    pub from: String,
    pub to: String,
}

/// What changed between two checkpoints.
#[derive(Debug, Clone, PartialEq)]
pub struct DiffReport {
    pub added: Vec<TaskSummary>,
    pub removed: Vec<TaskSummary>,
    pub changed: Vec<StatusChange>,
}

impl Default for DiffReport {
    /// No change at all.
    fn default() -> (r: DiffReport)
        ensures
            r.added@.len() == 0 && r.removed@.len() == 0 && r.changed@.len() == 0,
    {
        DiffReport { added: Vec::new(), removed: Vec::new(), changed: Vec::new() }
    }
}

impl DiffReport {
    /// True if the two checkpoints describe the same tasks in the same
    /// states.
    pub fn is_empty(&self) -> (b: bool)
        ensures
            b == (self.added@.len() == 0 && self.removed@.len() == 0 && self.changed@.len() == 0),
    {
        self.added.len() == 0 && self.removed.len() == 0 && self.changed.len() == 0
    }
}

/// What `normalize` makes of `raw`: trimmed, lowercased (ASCII text letter
/// by letter; other text by its Unicode lowercase), hyphens removed.
pub open spec fn normalize_spec(raw: Seq<char>) -> Seq<char> {
    let t = text::trim_spec(raw);
    text::without_hyphens_spec(
        if text::is_ascii_text(t) {
            t.map_values(|c: char| text::ascii_lower(c))
        } else {
            text::lowercase_text(t)
        },
    )
}

/// `raw` trimmed, lowercased and without hyphens: hyphens and case are
/// cosmetic in an id.
pub fn normalize(raw: &str) -> (s: String)
    ensures
        s@ == normalize_spec(raw@),
{
    let trimmed = text::trim(raw);
    let lower = text::to_lowercase(trimmed.as_str());
    text::without_hyphens(lower.as_str())
}

/// The listing keys of `tasks`: priority (or nothing), title, id.
pub open spec fn task_keys(tasks: Seq<Task>, by_priority: bool) -> Seq<ListKey> {
    Seq::new(
        tasks.len(),
        |i: int|
            (if by_priority {
                tasks[i].priority.rank_spec()
            } else {
                0
            }, tasks[i].title@, tasks[i].id),
    )
}

/// `out` summarizes `tasks` in listing order: highest priority first (if
/// `by_priority`), then by title, then by id.
pub open spec fn is_listed(tasks: Seq<Task>, by_priority: bool, out: Seq<TaskSummary>) -> bool {
    exists|p: Seq<usize>|
        #[trigger] ordering::is_listing(task_keys(tasks, by_priority), p) && out.len() == p.len()
            && forall|k: int| 0 <= k < p.len() ==> summarizes(#[trigger] out[k], tasks[p[k] as int])
}

/// The positions of `tasks` in listing order.
fn listing_positions(tasks: &Vec<&Task>, by_priority: bool) -> (p: Vec<usize>)
    ensures
        ordering::is_listing(task_keys(derefs(tasks@), by_priority), p@),
{
    let ghost ts = derefs(tasks@);
    let mut ranks: Vec<u8> = Vec::new();
    let mut titles: Vec<String> = Vec::new();
    let mut tids: Vec<u128> = Vec::new();
    let mut i: usize = 0;
    while i < tasks.len()
        invariant
            ts == derefs(tasks@),
            i <= tasks@.len(),
            ranks@.len() == i,
            titles@.len() == i,
            tids@.len() == i,
            forall|j: int|
                0 <= j < i ==> (ranks@[j] as int, titles@[j]@, tids@[j]) == #[trigger] task_keys(
                    ts,
                    by_priority,
                )[j],
        decreases tasks@.len() - i,
    {
        let t = tasks[i];
        ranks.push(if by_priority { t.priority.rank() } else { 0 });
        titles.push(t.title.clone());
        tids.push(t.id);
        i = i + 1;
    }
    let p = ordering::listing_order(&ranks, &titles, &tids);
    proof {
        assert(ordering::list_keys(ranks@, titles@, tids@) =~= task_keys(ts, by_priority));
    }
    p
}

/// Summaries of `tasks` in listing order.
fn listing(tasks: &Vec<&Task>, by_priority: bool) -> (r: Vec<TaskSummary>)
    ensures
        is_listed(derefs(tasks@), by_priority, r@),
{
    let ghost ts = derefs(tasks@);
    let p = listing_positions(tasks, by_priority);
    let mut out: Vec<TaskSummary> = Vec::new();
    let mut k: usize = 0;
    while k < p.len()
        invariant
            ts == derefs(tasks@),
            ordering::is_permutation(p@, ts.len()),
            k <= p@.len(),
            out@.len() == k,
            forall|j: int| 0 <= j < k ==> summarizes(#[trigger] out@[j], ts[p@[j] as int]),
        decreases p@.len() - k,
    {
        out.push(TaskSummary::from_task(tasks[p[k]]));
        k = k + 1;
    }
    proof {
        assert(ordering::is_listing(task_keys(ts, by_priority), p@));
    }
    out
}

/// `t` passes the optional status filter.
pub open spec fn passes(t: Task, status: Option<StatusFilter>) -> bool {
    match status {
        Some(f) => label_of(t.status) == filter_label(f),
        None => true,
    }
}

/// Every task, highest priority first, optionally narrowed to one status;
/// ties are broken by title and then id, so the order never depends on
/// insertion.
pub fn list(registry: &TaskRegistry, status: Option<StatusFilter>) -> (r: Vec<TaskSummary>)
    ensures
        is_listed(registry.task_seq().filter(|t: Task| passes(t, status)), true, r@),
{
    let all = registry.task_slice();
    let ghost seq_all = all@;
    let mut picked: Vec<&Task> = Vec::new();
    let mut i: usize = 0;
    while i < all.len()
        invariant
            seq_all == all@,
            i <= all@.len(),
            derefs(picked@) == seq_all.take(i as int).filter(|t: Task| passes(t, status)),
        decreases all@.len() - i,
    {
        let t = &all[i];
        proof {
            assert(seq_all.take(i as int + 1).drop_last() =~= seq_all.take(i as int));
            reveal(Seq::filter);
        }
        let keep = match status {
            Some(f) => {
                let a = status_label(&t.status);
                let b = f.label();
                text::compare(a, b) == 0
            },
            None => true,
        };
        proof {
            match status {
                Some(f) => {
                    text::lemma_compare_flips(label_of(t.status), filter_label(f));
                },
                None => {},
            }
        }
        if keep {
            let ghost prev = picked@;
            picked.push(t);
            proof {
                crate::trace::lemma_derefs_push(prev, t);
            }
        }
        i = i + 1;
    }
    proof {
        assert(seq_all.take(i as int) =~= seq_all);
    }
    listing(&picked, true)
}

/// `parts` joined by `sep`.
pub open spec fn join_spec(parts: Seq<Seq<char>>, sep: Seq<char>) -> Seq<char>
    decreases parts.len(),
{
    if parts.len() == 0 {
        Seq::empty()
    } else if parts.len() == 1 {
        parts[0]
    } else {
        join_spec(parts.drop_last(), sep) + sep + parts.last()
    }
}

/// The id of `t`, normalized, begins with `needle`.
pub open spec fn id_matches(t: Task, needle: Seq<char>) -> bool {
    text::has_prefix(normalize_spec(ids::hyphenated_spec(t.id)), needle)
}

/// The short ids of `tasks`.
pub open spec fn shorts(tasks: Seq<Task>) -> Seq<Seq<char>> {
    tasks.map_values(|t: Task| short_spec(t.id))
}

/// The message for a needle that matches several tasks.
pub open spec fn ambiguous_ids_message(needle: Seq<char>, matched: Seq<Task>) -> Seq<char> {
    text::quoted_text(needle) + " is ambiguous \u{2014} "@ + text::decimal_spec(matched.len())
        + " tasks match: "@ + join_spec(shorts(matched), ", "@)
}

/// The result `resolve_task` owes for `needle`.
pub open spec fn resolve_spec(tasks: Seq<Task>, needle: Seq<char>, r: Result<&Task, TraceErr>) -> bool {
    let n = normalize_spec(needle);
    let ms = tasks.filter(|t: Task| id_matches(t, n));
    if n.len() == 0 {
        r matches Err(e) && e.is_other_with("no task id given"@)
    } else if ms.len() == 1 {
        r matches Ok(t) && *t == ms[0]
    } else if ms.len() == 0 {
        r matches Err(e) && e.is_other_with("no task matches "@ + text::quoted_text(n))
    } else {
        r matches Err(e) && e.is_other_with(ambiguous_ids_message(n, ms))
    }
}

/// `s` lists `tasks` as `all_by_priority` does: highest priority first,
/// ties in registry order.
pub open spec fn by_priority(tasks: Seq<Task>, s: Seq<Task>) -> bool {
    exists|p: Seq<usize>|
        #[trigger] crate::ordering::is_stable_ranking(registry::priority_keys(tasks), p) && s
            == p.map_values(|k: usize| tasks[k as int])
}

/// Find the task whose id begins with `needle` (after normalizing both).
/// No match, or several, is an error rather than a guess; several matches
/// are listed highest priority first.
pub fn resolve_task<'a>(registry: &'a TaskRegistry, needle: &str) -> (r: Result<&'a Task, TraceErr>)
    ensures
        exists|s: Seq<Task>| #[trigger] by_priority(registry.task_seq(), s) && resolve_spec(s, needle@, r),
{
    let n = normalize(needle);
    if n.as_str().unicode_len() == 0 {
        let all = registry.all_by_priority();
        proof {
            assert(by_priority(registry.task_seq(), derefs(all@)));
        }
        return Err(TraceErr::other("no task id given"));
    }
    let all = registry.all_by_priority();
    let ghost seq_all = derefs(all@);
    proof {
        assert(by_priority(registry.task_seq(), seq_all));
    }
    let ghost nv = n@;
    let mut matched: Vec<&Task> = Vec::new();
    let mut i: usize = 0;
    while i < all.len()
        invariant
            seq_all == derefs(all@),
            seq_all.len() == all@.len(),
            nv == n@,
            i <= all@.len(),
            derefs(matched@) == seq_all.take(i as int).filter(|t: Task| id_matches(t, nv)),
        decreases all@.len() - i,
    {
        let t: &Task = all[i];
        proof {
            assert(seq_all.take(i as int + 1).drop_last() =~= seq_all.take(i as int));
            assert(seq_all[i as int] == *t);
            reveal(Seq::filter);
        }
        let key = normalize(ids::hyphenated(t.id).as_str());
        if text::starts_with(key.as_str(), n.as_str()) {
            let ghost prev = matched@;
            matched.push(t);
            proof {
                crate::trace::lemma_derefs_push(prev, t);
            }
        }
        i = i + 1;
    }
    proof {
        assert(seq_all.take(i as int) =~= seq_all);
    }
    if matched.len() == 1 {
        return Ok(matched[0]);
    }
    if matched.len() == 0 {
        let mut m = text::concat("no task matches ", text::quoted(n.as_str()).as_str());
        return Err(TraceErr::Other(m));
    }
    let mut m = text::quoted(n.as_str());
    m.append(" is ambiguous \u{2014} ");
    m.append(text::decimal(matched.len() as u64).as_str());
    m.append(" tasks match: ");
    let ghost ms = derefs(matched@);
    let mut k: usize = 0;
    let ghost head = m@;
    while k < matched.len()
        invariant
            ms == derefs(matched@),
            k <= matched@.len(),
            m@ == head + join_spec(shorts(ms.take(k as int)), ", "@),
        decreases matched@.len() - k,
    {
        if k > 0 {
            m.append(", ");
        }
        m.append(short(matched[k].id).as_str());
        proof {
            let parts = shorts(ms.take(k as int + 1));
            assert(parts.drop_last() =~= shorts(ms.take(k as int)));
            assert(parts.last() == short_spec(ms[k as int].id));
            if k == 0 {
                assert(shorts(ms.take(0)) =~= Seq::<Seq<char>>::empty());
            }
        }
        k = k + 1;
    }
    proof {
        assert(ms.take(k as int) =~= ms);
    }
    Err(TraceErr::Other(m))
}

/// `b` is a dependency of the task with id `a`.
pub open spec fn dep_step(tasks: Seq<Task>, a: u128, b: u128) -> bool {
    registry::has_id(tasks, a) && tasks[registry::id_index(tasks, a)].depends_on@.contains(b)
}

/// `p` follows dependency edges.
pub open spec fn dep_walk(tasks: Seq<Task>, p: Seq<u128>) -> bool {
    &&& p.len() >= 1
    &&& forall|i: int| 0 <= i < p.len() - 1 ==> dep_step(tasks, #[trigger] p[i], p[i + 1])
}

/// The task `a` waited, transitively, on `b`.
pub open spec fn dep_reaches(tasks: Seq<Task>, a: u128, b: u128) -> bool {
    exists|p: Seq<u128>| #[trigger] dep_walk(tasks, p) && p[0] == a && p.last() == b
}

/// The ids of a list of summaries.
pub open spec fn summary_ids(out: Seq<TaskSummary>) -> Seq<u128> {
    out.map_values(|s: TaskSummary| s.id)
}

/// Some chain of at most `k` dependency steps leads from `a` to `b`.
pub open spec fn dep_within(tasks: Seq<Task>, a: u128, b: u128, k: nat) -> bool {
    exists|p: Seq<u128>| #[trigger] dep_walk(tasks, p) && p[0] == a && p.last() == b && p.len() <= k + 1
}

/// `ids` lists tasks nearest `start` first: whenever a later one is within
/// `k` dependency steps of `start`, so is every earlier one.
pub open spec fn deps_nearest_first(tasks: Seq<Task>, start: u128, ids: Seq<u128>) -> bool {
    forall|i: int, j: int, k: nat|
        #![trigger ids[i], dep_within(tasks, start, ids[j], k)]
        0 <= i < j < ids.len() && dep_within(tasks, start, ids[j], k) ==> dep_within(tasks, start, ids[i], k)
}

/// `j` is the first position in `l` holding a task that waited on `l[k]`.
pub open spec fn dep_first_from(tasks: Seq<Task>, l: Seq<u128>, k: int, j: int) -> bool {
    &&& 0 <= j < k < l.len()
    &&& dep_step(tasks, l[j], l[k])
    &&& forall|j2: int| 0 <= j2 < j ==> !dep_step(tasks, #[trigger] l[j2], l[k])
}

/// `e` is the first position of `b` in the dependency list of task `a`.
pub open spec fn dep_slot(tasks: Seq<Task>, a: u128, b: u128, e: int) -> bool {
    &&& registry::has_id(tasks, a)
    &&& 0 <= e < tasks[registry::id_index(tasks, a)].depends_on@.len()
    &&& tasks[registry::id_index(tasks, a)].depends_on@[e] == b
    &&& forall|e2: int| 0 <= e2 < e ==> #[trigger] tasks[registry::id_index(tasks, a)].depends_on@[e2] != b
}

/// `l[k]` is a dependency of a task listed before it.
pub open spec fn dep_reached(tasks: Seq<Task>, l: Seq<u128>, k: int) -> bool {
    exists|j: int, e: int| #[trigger] dep_first_from(tasks, l, k, j) && #[trigger] dep_slot(tasks, l[j], l[k], e)
}

/// `l` lists ids in the order a breadth-first walk of dependencies from
/// `l[0]` meets them: each comes after the first listed task that waited
/// on it, and ids are ordered by that task's position, then by where the
/// id first appears in that task's dependency list.
pub open spec fn deps_discovery_order(tasks: Seq<Task>, l: Seq<u128>) -> bool {
    &&& forall|k: int| 1 <= k < l.len() ==> #[trigger] dep_reached(tasks, l, k)
    &&& forall|k1: int, k2: int, j1: int, e1: int, j2: int, e2: int|
        1 <= k1 < k2 < l.len() && #[trigger] dep_first_from(tasks, l, k1, j1) && #[trigger] dep_slot(
            tasks,
            l[j1],
            l[k1],
            e1,
        ) && #[trigger] dep_first_from(tasks, l, k2, j2) && #[trigger] dep_slot(tasks, l[j2], l[k2], e2) ==> j1
            < j2 || (j1 == j2 && e1 < e2)
}

/// A breadth-first listing of dependency ids from `start`, in which each id
/// after the first records the position it was first reached from and the
/// dependency slot used, yields the tasks it summarizes in discovery order.
proof fn lemma_deps_discovery(
    tasks: Seq<Task>,
    order: Seq<u128>,
    opar: Seq<int>,
    oeid: Seq<int>,
    pos: Seq<int>,
    ids: Seq<u128>,
)
    requires
        order.len() >= 1,
        opar.len() == order.len(),
        oeid.len() == order.len(),
        forall|q: int|
            1 <= q < order.len() ==> 0 <= #[trigger] opar[q] < q && dep_step(tasks, order[opar[q]], order[q])
                && (forall|q2: int| 0 <= q2 < opar[q] ==> !dep_step(tasks, #[trigger] order[q2], order[q]))
                && dep_slot(tasks, order[opar[q]], order[q], oeid[q]),
        forall|q1: int, q2: int|
            #![trigger opar[q1], opar[q2]]
            1 <= q1 < q2 < order.len() ==> opar[q1] < opar[q2] || (opar[q1] == opar[q2] && oeid[q1] < oeid[q2]),
        pos.len() == ids.len(),
        forall|i: int| 0 <= i < pos.len() ==> 1 <= #[trigger] pos[i] < order.len() && ids[i] == order[pos[i]],
        forall|i: int, j: int| 0 <= i < j < pos.len() ==> pos[i] < pos[j],
        forall|q: int|
            1 <= q < order.len() && registry::has_id(tasks, #[trigger] order[q]) ==> exists|i: int|
                0 <= i < pos.len() && pos[i] == q,
    ensures
        deps_discovery_order(tasks, seq![order[0]] + ids),
{
    let l = seq![order[0]] + ids;
    let pp = seq![0int] + pos;
    assert forall|m: int| 0 <= m < l.len() implies 0 <= #[trigger] pp[m] < order.len() && l[m] == order[pp[m]] by {
        if m > 0 {
            assert(pp[m] == pos[m - 1] && l[m] == ids[m - 1]);
        }
    }
    assert forall|m1: int, m2: int| 0 <= m1 < m2 < l.len() implies #[trigger] pp[m1] < #[trigger] pp[m2] by {
        if m1 > 0 {
            assert(pp[m1] == pos[m1 - 1] && pp[m2] == pos[m2 - 1]);
        } else {
            assert(pp[m2] == pos[m2 - 1]);
        }
    }
    // Every listed position with a task behind it, or the start, has a
    // place in `l`.
    assert forall|q: int| 0 <= q < order.len() && (q == 0 || registry::has_id(tasks, order[q])) implies exists|m: int|
        0 <= m < l.len() && #[trigger] pp[m] == q by {
        if q == 0 {
            assert(pp[0] == 0);
        } else {
            let i = choose|i: int| 0 <= i < pos.len() && pos[i] == q;
            assert(pp[i + 1] == q);
        }
    }
    // The place in `l` of the position `k` was first reached from.
    assert forall|k: int| #![trigger l[k]] 1 <= k < l.len() implies exists|m: int|
        0 <= m < k && #[trigger] pp[m] == opar[pp[k]] && dep_first_from(tasks, l, k, m) && dep_slot(
            tasks,
            l[m],
            l[k],
            oeid[pp[k]],
        ) by {
        let q = pp[k];
        assert(1 <= q < order.len() && l[k] == order[q]) by {
            assert(pp[k] == pos[k - 1]);
        }
        let p = opar[q];
        assert(dep_step(tasks, order[p], order[q]));
        assert(p == 0 || registry::has_id(tasks, order[p]));
        let m = choose|m: int| 0 <= m < l.len() && #[trigger] pp[m] == p;
        if m >= k {
            assert(pp[k] <= pp[m]) by {
                if k < m {
                    assert(pp[k] < pp[m]);
                }
            }
        }
        assert forall|j2: int| 0 <= j2 < m implies !dep_step(tasks, #[trigger] l[j2], l[k]) by {
            assert(pp[j2] < pp[m]);
            assert(l[j2] == order[pp[j2]]);
        }
    }
    assert forall|k: int| 1 <= k < l.len() implies #[trigger] dep_reached(tasks, l, k) by {
        let m = choose|m: int|
            0 <= m < k && #[trigger] pp[m] == opar[pp[k]] && dep_first_from(tasks, l, k, m) && dep_slot(
                tasks,
                l[m],
                l[k],
                oeid[pp[k]],
            );
    }
    assert forall|k1: int, k2: int, j1: int, e1: int, j2: int, e2: int|
        1 <= k1 < k2 < l.len() && #[trigger] dep_first_from(tasks, l, k1, j1) && #[trigger] dep_slot(
            tasks,
            l[j1],
            l[k1],
            e1,
        ) && #[trigger] dep_first_from(tasks, l, k2, j2) && #[trigger] dep_slot(tasks, l[j2], l[k2], e2) implies j1
        < j2 || (j1 == j2 && e1 < e2) by {
        let m1 = choose|m: int|
            0 <= m < k1 && #[trigger] pp[m] == opar[pp[k1]] && dep_first_from(tasks, l, k1, m) && dep_slot(
                tasks,
                l[m],
                l[k1],
                oeid[pp[k1]],
            );
        let m2 = choose|m: int|
            0 <= m < k2 && #[trigger] pp[m] == opar[pp[k2]] && dep_first_from(tasks, l, k2, m) && dep_slot(
                tasks,
                l[m],
                l[k2],
                oeid[pp[k2]],
            );
        lemma_dep_first_unique(tasks, l, k1, j1, m1);
        lemma_dep_first_unique(tasks, l, k2, j2, m2);
        lemma_dep_slot_unique(tasks, l[j1], l[k1], e1, oeid[pp[k1]]);
        lemma_dep_slot_unique(tasks, l[j2], l[k2], e2, oeid[pp[k2]]);
        let q1 = pp[k1];
        let q2 = pp[k2];
        assert(q1 < q2);
        assert(q1 == pos[k1 - 1] && q2 == pos[k2 - 1]);
        assert(opar[q1] < opar[q2] || (opar[q1] == opar[q2] && oeid[q1] < oeid[q2]));
        if m1 > m2 {
            assert(pp[m2] < pp[m1]);
        }
        if m1 == m2 {
            assert(opar[q1] == opar[q2]);
        }
    }
}

/// The first position a task is reached from is unique.
proof fn lemma_dep_first_unique(tasks: Seq<Task>, l: Seq<u128>, k: int, j1: int, j2: int)
    requires
        dep_first_from(tasks, l, k, j1),
        dep_first_from(tasks, l, k, j2),
    ensures
        j1 == j2,
{
    if j1 < j2 {
        assert(!dep_step(tasks, l[j1], l[k]));
    } else if j2 < j1 {
        assert(!dep_step(tasks, l[j2], l[k]));
    }
}

/// The first slot of an id in a dependency list is unique.
proof fn lemma_dep_slot_unique(tasks: Seq<Task>, a: u128, b: u128, e1: int, e2: int)
    requires
        dep_slot(tasks, a, b, e1),
        dep_slot(tasks, a, b, e2),
    ensures
        e1 == e2,
{
    let d = tasks[registry::id_index(tasks, a)].depends_on@;
    if e1 < e2 {
        assert(d[e1] != b);
    } else if e2 < e1 {
        assert(d[e2] != b);
    }
}

/// `out` summarizes every task `start` transitively waited on, each once,
/// nearest first and, within one distance, in the order a breadth-first
/// walk of dependency lists meets them; a dependency id with no task behind
/// it is skipped.
pub open spec fn is_upstream(tasks: Seq<Task>, start: u128, out: Seq<TaskSummary>) -> bool {
    &&& deps_nearest_first(tasks, start, summary_ids(out))
    &&& deps_discovery_order(tasks, seq![start] + summary_ids(out))
    &&& summary_ids(out).no_duplicates()
    &&& forall|x: u128|
        #![trigger summary_ids(out).contains(x)]
        summary_ids(out).contains(x) <==> (x != start && registry::has_id(tasks, x) && dep_reaches(
            tasks,
            start,
            x,
        ))
    &&& forall|i: int|
        0 <= i < out.len() ==> registry::has_id(tasks, (#[trigger] out[i]).id) && summarizes(
            out[i],
            tasks[registry::id_index(tasks, out[i].id)],
        )
}

/// Every dependency step out of an id listed in `seen` leads to a listed id.
pub open spec fn deps_closed(tasks: Seq<Task>, seen: Seq<u128>) -> bool {
    forall|k: int, y: u128| 0 <= k < seen.len() && #[trigger] dep_step(tasks, seen[k], y) ==> seen.contains(y)
}

proof fn lemma_dep_walk_stays(tasks: Seq<Task>, seen: Seq<u128>, p: Seq<u128>, i: int)
    requires
        deps_closed(tasks, seen),
        dep_walk(tasks, p),
        seen.contains(p[0]),
        0 <= i < p.len(),
    ensures
        seen.contains(p[i]),
    decreases i,
{
    if i > 0 {
        lemma_dep_walk_stays(tasks, seen, p, i - 1);
        let k = choose|k: int| 0 <= k < seen.len() && seen[k] == p[i - 1];
        assert(dep_step(tasks, seen[k], p[i]));
    }
}

/// Every task is within no steps of itself, and only itself is.
proof fn lemma_dep_within_zero(tasks: Seq<Task>, a: u128, x: u128)
    ensures
        dep_within(tasks, a, a, 0),
        dep_within(tasks, a, x, 0) ==> x == a,
{
    let p = seq![a];
    assert(dep_walk(tasks, p));
    if dep_within(tasks, a, x, 0) {
        let q = choose|q: Seq<u128>| #[trigger] dep_walk(tasks, q) && q[0] == a && q.last() == x && q.len() <= 1;
    }
}

/// One more dependency step reaches one step further.
proof fn lemma_dep_within_extend(tasks: Seq<Task>, a: u128, z: u128, y: u128, k: nat)
    requires
        dep_within(tasks, a, z, k),
        dep_step(tasks, z, y),
    ensures
        dep_within(tasks, a, y, k + 1),
{
    let p = choose|p: Seq<u128>| #[trigger] dep_walk(tasks, p) && p[0] == a && p.last() == z && p.len() <= k + 1;
    let w = p.push(y);
    assert forall|i: int| 0 <= i < w.len() - 1 implies dep_step(tasks, #[trigger] w[i], w[i + 1]) by {
        if i < p.len() - 1 {
            assert(w[i] == p[i] && w[i + 1] == p[i + 1]);
        }
    }
    assert(dep_walk(tasks, w));
}

/// A chain within `k1` steps is within any larger bound.
proof fn lemma_dep_within_more(tasks: Seq<Task>, a: u128, x: u128, k1: nat, k2: nat)
    requires
        dep_within(tasks, a, x, k1),
        k1 <= k2,
    ensures
        dep_within(tasks, a, x, k2),
{
    let p = choose|p: Seq<u128>| #[trigger] dep_walk(tasks, p) && p[0] == a && p.last() == x && p.len() <= k1 + 1;
    assert(dep_walk(tasks, p));
}

/// A task within `k + 1` steps is within `k`, or one step past a task
/// within `k` (returned).
proof fn lemma_dep_within_split(tasks: Seq<Task>, a: u128, x: u128, k: nat) -> (z: Option<u128>)
    requires
        dep_within(tasks, a, x, k + 1),
    ensures
        match z {
            None => dep_within(tasks, a, x, k),
            Some(z) => dep_within(tasks, a, z, k) && dep_step(tasks, z, x),
        },
{
    let p = choose|p: Seq<u128>| #[trigger] dep_walk(tasks, p) && p[0] == a && p.last() == x && p.len() <= k + 2;
    if p.len() <= k + 1 {
        None
    } else {
        let q = p.drop_last();
        assert forall|i: int| 0 <= i < q.len() - 1 implies dep_step(tasks, #[trigger] q[i], q[i + 1]) by {
            assert(q[i] == p[i] && q[i + 1] == p[i + 1]);
        }
        assert(dep_walk(tasks, q));
        assert(q[0] == a);
        assert(dep_step(tasks, p[p.len() - 2], p[p.len() - 1]));
        Some(q.last())
    }
}

/// Once every task at the level of the entry being expanded is listed, and
/// every entry up to it has had its dependencies listed, every task at the
/// next entry's level is listed too.
proof fn lemma_dep_frontier_advance(tasks: Seq<Task>, start: u128, order: Seq<u128>, lvl: Seq<nat>, head: int)
    requires
        0 <= head,
        head + 1 < order.len(),
        lvl.len() == order.len(),
        forall|i: int, k: nat|
            0 <= i < order.len() && #[trigger] dep_within(tasks, start, order[i], k) ==> lvl[i] <= k,
        forall|i: int, j: int| 0 <= i < j < lvl.len() ==> lvl[i] <= lvl[j],
        lvl[order.len() - 1] <= lvl[head] + 1,
        forall|x: u128, k: nat| #[trigger] dep_within(tasks, start, x, k) && k <= lvl[head] ==> order.contains(x),
        forall|k: int, y: u128| 0 <= k < head + 1 && #[trigger] dep_step(tasks, order[k], y) ==> order.contains(y),
    ensures
        forall|x: u128, k: nat| #[trigger] dep_within(tasks, start, x, k) && k <= lvl[head + 1] ==> order.contains(x),
{
    assert(lvl[head + 1] <= lvl[order.len() - 1]);
    assert forall|x: u128, k: nat| #[trigger] dep_within(tasks, start, x, k) && k <= lvl[head + 1] implies order.contains(x) by {
        if k > lvl[head] {
            let l = lvl[head];
            lemma_dep_within_more(tasks, start, x, k, l + 1);
            let z = lemma_dep_within_split(tasks, start, x, l);
            match z {
                None => {},
                Some(z) => {
                    assert(order.contains(z));
                    let i = choose|i: int| 0 <= i < order.len() && order[i] == z;
                    assert(lvl[i] <= l);
                    if i > head {
                        assert(lvl[head + 1] <= lvl[i]);
                    }
                    assert(dep_step(tasks, order[i], x));
                },
            }
        }
    }
}

/// Distinct ids that all name tasks are no more numerous than the tasks.
proof fn lemma_task_ids_bounded(found: Set<u128>, tasks: Seq<Task>)
    requires
        forall|x: u128| found.contains(x) ==> registry::has_id(tasks, x),
    ensures
        found.finite(),
        found.len() <= tasks.len(),
{
    let all = tasks.map_values(|t: Task| t.id);
    assert forall|x: u128| found.contains(x) implies all.to_set().contains(x) by {
        let j = choose|j: int| 0 <= j < tasks.len() && (#[trigger] tasks[j]).id == x;
        assert(all[j] == x);
    }
    all.lemma_cardinality_of_set();
    vstd::set_lib::lemma_len_subset(found, all.to_set());
}

/// True if `v` lists `x`.
fn lists_id(v: &Vec<u128>, x: u128) -> (b: bool)
    ensures
        b == v@.contains(x),
{
    let mut i: usize = 0;
    while i < v.len()
        invariant
            i <= v@.len(),
            forall|j: int| 0 <= j < i ==> v@[j] != x,
        decreases v@.len() - i,
    {
        if v[i] == x {
            return true;
        }
        i = i + 1;
    }
    false
}

/// Every task `task` transitively waited on, breadth-first, nearest first.
#[verifier::rlimit(100)]
#[verifier::spinoff_prover]
fn upstream_of(registry: &TaskRegistry, task: &Task) -> (r: Vec<TaskSummary>)
    requires
        registry.wf(),
        registry::has_id(registry.task_seq(), task.id),
    ensures
        is_upstream(registry.task_seq(), task.id, r@),
{
    let ghost tasks = registry.task_seq();
    let ghost start = task.id;
    let mut order: Vec<u128> = Vec::new();
    order.push(task.id);
    let mut out: Vec<TaskSummary> = Vec::new();
    let mut head: usize = 0;
    let ghost mut expanded: Set<u128> = Set::empty();
    // The number of dependency steps each listed id lies from `start`, and
    // the position in `order` of each summarized task.
    let ghost mut lvl: Seq<nat> = seq![0nat];
    let ghost mut pos: Seq<int> = Seq::empty();
    // For each listed id after the first: the position it was first reached
    // from, and the slot of the dependency list used.
    let ghost mut opar: Seq<int> = seq![0int];
    let ghost mut oeid: Seq<int> = seq![0int];
    proof {
        lemma_task_ids_bounded(expanded, tasks);
        lemma_dep_within_zero(tasks, start, start);
        assert forall|i: int, k: nat| 0 <= i < order@.len() && #[trigger] dep_within(tasks, start, order@[i], k) implies lvl[i] <= k by {}
        assert forall|x: u128, k: nat| #[trigger] dep_within(tasks, start, x, k) && k <= lvl[0] implies order@.contains(x) by {
            lemma_dep_within_zero(tasks, start, x);
            assert(order@[0] == x);
        }
    }
    while head < order.len()
        invariant
            opar.len() == order@.len(),
            oeid.len() == order@.len(),
            forall|q: int|
                1 <= q < order@.len() ==> 0 <= #[trigger] opar[q] < q && dep_step(tasks, order@[opar[q]], order@[q])
                    && (forall|q2: int| 0 <= q2 < opar[q] ==> !dep_step(tasks, #[trigger] order@[q2], order@[q]))
                    && dep_slot(tasks, order@[opar[q]], order@[q], oeid[q]) && opar[q] < head,
            forall|q1: int, q2: int|
                #![trigger opar[q1], opar[q2]]
                1 <= q1 < q2 < order@.len() ==> opar[q1] < opar[q2] || (opar[q1] == opar[q2] && oeid[q1]
                    < oeid[q2]),
            forall|q: int|
                1 <= q < head && registry::has_id(tasks, #[trigger] order@[q]) ==> exists|i: int|
                    0 <= i < pos.len() && pos[i] == q,
            lvl.len() == order@.len(),
            forall|i: int| 0 <= i < order@.len() ==> dep_within(tasks, start, #[trigger] order@[i], lvl[i]),
            forall|i: int, k: nat|
                0 <= i < order@.len() && #[trigger] dep_within(tasks, start, order@[i], k) ==> lvl[i] <= k,
            forall|i: int, j: int| 0 <= i < j < lvl.len() ==> lvl[i] <= lvl[j],
            head < order@.len() ==> lvl[order@.len() - 1] <= lvl[head as int] + 1,
            head < order@.len() ==> forall|x: u128, k: nat|
                #[trigger] dep_within(tasks, start, x, k) && k <= lvl[head as int] ==> order@.contains(x),
            pos.len() == out@.len(),
            forall|i: int| 0 <= i < pos.len() ==> 1 <= #[trigger] pos[i] < head && out@[i].id == order@[pos[i]],
            forall|i: int, j: int| 0 <= i < j < pos.len() ==> pos[i] < pos[j],
            registry.wf(),
            tasks == registry.task_seq(),
            order@.len() >= 1,
            order@[0] == start,
            registry::has_id(tasks, start),
            head <= order@.len(),
            order@.no_duplicates(),
            forall|k: int| 1 <= k < order@.len() ==> dep_reaches(tasks, start, #[trigger] order@[k]),
            forall|k: int, y: u128|
                0 <= k < head && #[trigger] dep_step(tasks, order@[k], y) ==> order@.contains(y),
            summary_ids(out@).no_duplicates(),
            forall|x: u128|
                #![trigger summary_ids(out@).contains(x)]
                summary_ids(out@).contains(x) <==> (registry::has_id(tasks, x) && exists|k: int|
                    1 <= k < head && order@[k] == x),
            forall|i: int|
                0 <= i < out@.len() ==> registry::has_id(tasks, (#[trigger] out@[i]).id) && summarizes(
                    out@[i],
                    tasks[registry::id_index(tasks, out@[i].id)],
                ),
            forall|x: u128|
                #[trigger] expanded.contains(x) <==> (registry::has_id(tasks, x) && exists|k: int|
                    0 <= k < head && order@[k] == x),
            expanded.finite(),
            expanded.len() <= tasks.len(),
        decreases tasks.len() - expanded.len(), order@.len() - head,
    {
        let cur = order[head];
        let ghost pre = order@;
        let ghost pos0 = pos;
        match registry.get(cur) {
            Some(t) => {
                proof {
                    assert(!expanded.contains(cur)) by {
                        if expanded.contains(cur) {
                            let k = choose|k: int| 0 <= k < head && order@[k] == cur;
                            assert(order@[k] == order@[head as int]);
                        }
                    }
                    expanded = expanded.insert(cur);
                    lemma_task_ids_bounded(expanded, tasks);
                }
                if head == 0 {
                    proof {
                        assert forall|x: u128|
                            #![trigger summary_ids(out@).contains(x)]
                            summary_ids(out@).contains(x) <==> (registry::has_id(tasks, x)
                                && exists|k: int| 1 <= k < head + 1 && pre[k] == x) by {}
                    }
                }
                if head > 0 {
                    let ghost prev = out@;
                    out.push(TaskSummary::from_task(t));
                    proof {
                        pos = pos.push(head as int);
                        assert(summary_ids(out@) =~= summary_ids(prev).push(cur));
                        assert(summary_ids(out@)[prev.len() as int] == out@[prev.len() as int].id);
                        assert forall|i: int| 0 <= i < pos.len() implies 1 <= #[trigger] pos[i] < head + 1 && out@[i].id
                            == order@[pos[i]] by {
                            if i < prev.len() {
                                assert(out@[i] == prev[i]);
                            } else {
                                assert(summary_ids(out@)[i] == cur);
                            }
                        }
                        assert(!summary_ids(prev).contains(cur)) by {
                            if summary_ids(prev).contains(cur) {
                                let k = choose|k: int| 1 <= k < head && order@[k] == cur;
                                assert(order@[k] == order@[head as int]);
                            }
                        }
                        assert forall|x: u128|
                            #![trigger summary_ids(out@).contains(x)]
                            summary_ids(out@).contains(x) <==> (registry::has_id(tasks, x)
                                && exists|k: int| 1 <= k < head + 1 && pre[k] == x) by {
                            if summary_ids(out@).contains(x) && x != cur {
                                assert(summary_ids(prev).contains(x)) by {
                                    let j = choose|j: int|
                                        0 <= j < summary_ids(out@).len() && summary_ids(out@)[j] == x;
                                    assert(summary_ids(prev)[j] == x);
                                }
                            }
                            if registry::has_id(tasks, x) && (exists|k: int|
                                1 <= k < head + 1 && pre[k] == x) {
                                if x != cur {
                                    let k = choose|k: int| 1 <= k < head + 1 && pre[k] == x;
                                    assert(k < head);
                                    assert(summary_ids(prev).contains(x));
                                    let j = choose|j: int|
                                        0 <= j < summary_ids(prev).len() && summary_ids(prev)[j] == x;
                                    assert(summary_ids(out@)[j] == x);
                                } else {
                                    assert(summary_ids(out@)[prev.len() as int] == x);
                                }
                            }
                        }
                        assert forall|i: int| 0 <= i < out@.len() implies registry::has_id(
                            tasks,
                            (#[trigger] out@[i]).id,
                        ) && summarizes(out@[i], tasks[registry::id_index(tasks, out@[i].id)]) by {
                            if i < prev.len() {
                                assert(out@[i] == prev[i]);
                            }
                        }
                    }
                }
                let mut j: usize = 0;
                while j < t.depends_on.len()
                    invariant
                        opar.len() == order@.len(),
                        oeid.len() == order@.len(),
                        forall|q: int|
                            1 <= q < order@.len() ==> 0 <= #[trigger] opar[q] < q && dep_step(
                                tasks,
                                order@[opar[q]],
                                order@[q],
                            ) && (forall|q2: int|
                                0 <= q2 < opar[q] ==> !dep_step(tasks, #[trigger] order@[q2], order@[q]))
                                && dep_slot(tasks, order@[opar[q]], order@[q], oeid[q]) && opar[q] <= head
                                && (opar[q] == head ==> oeid[q] < j),
                        forall|q1: int, q2: int|
                            #![trigger opar[q1], opar[q2]]
                            1 <= q1 < q2 < order@.len() ==> opar[q1] < opar[q2] || (opar[q1] == opar[q2]
                                && oeid[q1] < oeid[q2]),
                        lvl.len() == order@.len(),
                        forall|i: int| 0 <= i < order@.len() ==> dep_within(tasks, start, #[trigger] order@[i], lvl[i]),
                        forall|i: int, k: nat|
                            0 <= i < order@.len() && #[trigger] dep_within(tasks, start, order@[i], k) ==> lvl[i] <= k,
                        forall|i: int, j: int| 0 <= i < j < lvl.len() ==> lvl[i] <= lvl[j],
                        lvl[order@.len() - 1] <= lvl[head as int] + 1,
                        forall|x: u128, k: nat|
                            #[trigger] dep_within(tasks, start, x, k) && k <= lvl[head as int] ==> order@.contains(x),
                        registry.wf(),
                        tasks == registry.task_seq(),
                        registry::has_id(tasks, cur),
                        *t == tasks[registry::id_index(tasks, cur)],
                        head < order@.len(),
                        cur == order@[head as int],
                        order@.len() >= 1,
                        order@[0] == start,
                        order@.no_duplicates(),
                        j <= t.depends_on@.len(),
                        forall|k: int|
                            1 <= k < order@.len() ==> dep_reaches(tasks, start, #[trigger] order@[k]),
                        forall|k: int, y: u128|
                            0 <= k < head && #[trigger] dep_step(tasks, order@[k], y) ==> order@.contains(
                                y,
                            ),
                        forall|i: int| 0 <= i < j ==> order@.contains(#[trigger] t.depends_on@[i]),
                        order@.len() >= pre.len(),
                        forall|k: int| 0 <= k < pre.len() ==> order@[k] == pre[k],
                    decreases t.depends_on@.len() - j,
                {
                    let d = t.depends_on[j];
                    if !lists_id(&order, d) {
                        let ghost prev = order@;
                        proof {
                            assert(dep_step(tasks, cur, d)) by {
                                assert(t.depends_on@[j as int] == d);
                            }
                            assert(dep_reaches(tasks, start, d)) by {
                                if head == 0 {
                                    let w = seq![start, d];
                                    assert(dep_walk(tasks, w));
                                } else {
                                    assert(dep_reaches(tasks, start, order@[head as int]));
                                    let p = choose|p: Seq<u128>|
                                        #[trigger] dep_walk(tasks, p) && p[0] == start && p.last() == cur;
                                    let w = p.push(d);
                                    assert forall|i: int| 0 <= i < w.len() - 1 implies dep_step(
                                        tasks,
                                        #[trigger] w[i],
                                        w[i + 1],
                                    ) by {
                                        if i < p.len() - 1 {
                                            assert(w[i] == p[i] && w[i + 1] == p[i + 1]);
                                        }
                                    }
                                    assert(dep_walk(tasks, w));
                                    assert(w[0] == start && w.last() == d);
                                }
                            }
                        }
                        order.push(d);
                        proof {
                            assert forall|z: u128| prev.contains(z) implies order@.contains(z) by {
                                let i = choose|i: int| 0 <= i < prev.len() && prev[i] == z;
                                assert(order@[i] == z);
                            }
                            assert(order@[order@.len() - 1] == d);
                            let old_par = opar;
                            let old_eid = oeid;
                            opar = old_par.push(head as int);
                            oeid = old_eid.push(j as int);
                            assert(t.depends_on@[j as int] == d);
                            assert forall|q: int|
                                1 <= q < order@.len() implies 0 <= #[trigger] opar[q] < q && dep_step(
                                    tasks,
                                    order@[opar[q]],
                                    order@[q],
                                ) && (forall|q2: int|
                                    0 <= q2 < opar[q] ==> !dep_step(tasks, #[trigger] order@[q2], order@[q]))
                                    && dep_slot(tasks, order@[opar[q]], order@[q], oeid[q]) && opar[q] <= head
                                    && (opar[q] == head ==> oeid[q] < j + 1) by {
                                if q < prev.len() {
                                    assert(order@[q] == prev[q]);
                                    assert(order@[opar[q]] == prev[opar[q]]);
                                    assert forall|q2: int| 0 <= q2 < opar[q] implies !dep_step(
                                        tasks,
                                        #[trigger] order@[q2],
                                        order@[q],
                                    ) by {
                                        assert(order@[q2] == prev[q2]);
                                    }
                                } else {
                                    assert(order@[head as int] == cur);
                                    assert forall|q2: int| 0 <= q2 < head implies !dep_step(
                                        tasks,
                                        #[trigger] order@[q2],
                                        order@[q],
                                    ) by {
                                        assert(order@[q2] == prev[q2]);
                                        if dep_step(tasks, prev[q2], d) {
                                            assert(prev.contains(d));
                                        }
                                    }
                                    assert forall|e2: int| 0 <= e2 < j implies #[trigger] tasks[registry::id_index(
                                        tasks,
                                        cur,
                                    )].depends_on@[e2] != d by {
                                        assert(prev.contains(t.depends_on@[e2]));
                                    }
                                }
                            }
                            let old_lvl = lvl;
                            let l = old_lvl[head as int];
                            lvl = old_lvl.push(l + 1);
                            assert(dep_within(tasks, start, prev[head as int], l));
                            lemma_dep_within_extend(tasks, start, cur, d, l);
                            assert forall|i: int| 0 <= i < order@.len() implies dep_within(
                                tasks,
                                start,
                                #[trigger] order@[i],
                                lvl[i],
                            ) by {
                                if i < prev.len() {
                                    assert(order@[i] == prev[i]);
                                }
                            }
                            assert forall|i: int, k: nat|
                                0 <= i < order@.len() && #[trigger] dep_within(tasks, start, order@[i], k) implies lvl[i]
                                <= k by {
                                if i < prev.len() {
                                    assert(order@[i] == prev[i]);
                                } else if k <= l {
                                    assert(prev.contains(d));
                                }
                            }
                            assert forall|i: int, j: int| 0 <= i < j < lvl.len() implies lvl[i] <= lvl[j] by {
                                if j == lvl.len() - 1 && i < old_lvl.len() - 1 {
                                    assert(old_lvl[i] <= old_lvl[old_lvl.len() - 1]);
                                }
                            }
                        }
                    }
                    j = j + 1;
                }
                proof {
                    assert forall|k: int, y: u128|
                        0 <= k < head + 1 && #[trigger] dep_step(tasks, order@[k], y) implies order@.contains(
                            y,
                        ) by {
                        if k == head {
                            let i = choose|i: int|
                                0 <= i < t.depends_on@.len() && t.depends_on@[i] == y;
                            assert(order@.contains(t.depends_on@[i]));
                        }
                    }
                }
            },
            None => {
                proof {
                    assert forall|k: int, y: u128|
                        0 <= k < head + 1 && #[trigger] dep_step(tasks, order@[k], y) implies order@.contains(
                            y,
                        ) by {}
                    assert forall|x: u128|
                        #![trigger summary_ids(out@).contains(x)]
                        summary_ids(out@).contains(x) <==> (registry::has_id(tasks, x) && exists|k: int|
                            1 <= k < head + 1 && pre[k] == x) by {
                        if registry::has_id(tasks, x) && (exists|k: int|
                            1 <= k < head + 1 && pre[k] == x) {
                            let k = choose|k: int| 1 <= k < head + 1 && pre[k] == x;
                            assert(k != head);
                        }
                    }
                }
            },
        }
        proof {
            assert(order@.len() >= pre.len());
            assert(forall|k: int| 0 <= k < pre.len() ==> order@[k] == pre[k]);
            if head + 1 < order@.len() {
                lemma_dep_frontier_advance(tasks, start, order@, lvl, head as int);
                assert(lvl[head as int] <= lvl[head + 1]);
            }
            assert forall|i: int| 0 <= i < pos.len() implies 1 <= #[trigger] pos[i] < head + 1 && out@[i].id
                == order@[pos[i]] by {
                assert(order@[pos[i]] == pre[pos[i]]);
            }
            assert forall|q: int|
                1 <= q < head + 1 && registry::has_id(tasks, #[trigger] order@[q]) implies exists|i: int|
                    0 <= i < pos.len() && pos[i] == q by {
                assert(order@[q] == pre[q]);
                if q == head {
                    assert(registry::has_id(tasks, cur));
                    assert(pos == pos0.push(head as int));
                    assert(pos[pos.len() - 1] == q);
                } else {
                    let i = choose|i: int| 0 <= i < pos0.len() && pos0[i] == q;
                    assert(pos.len() >= pos0.len() && pos[i] == pos0[i]);
                }
            }
            assert forall|x: u128|
                #[trigger] expanded.contains(x) <==> (registry::has_id(tasks, x) && exists|k: int|
                    0 <= k < head + 1 && order@[k] == x) by {
                if registry::has_id(tasks, x) && (exists|k: int| 0 <= k < head + 1 && order@[k] == x) {
                    let k = choose|k: int| 0 <= k < head + 1 && order@[k] == x;
                    assert(pre[k] == x);
                    if k == head {
                        assert(registry::has_id(tasks, cur));
                    }
                }
                if expanded.contains(x) && x != cur {
                    let k = choose|k: int| 0 <= k < head && pre[k] == x;
                    assert(order@[k] == x);
                }
                if expanded.contains(x) && x == cur {
                    assert(order@[head as int] == x);
                }
            }
            assert forall|x: u128|
                #![trigger summary_ids(out@).contains(x)]
                summary_ids(out@).contains(x) <==> (registry::has_id(tasks, x) && exists|k: int|
                    1 <= k < head + 1 && order@[k] == x) by {
                if summary_ids(out@).contains(x) {
                    let k = choose|k: int| 1 <= k < head + 1 && pre[k] == x;
                    assert(order@[k] == x);
                }
                if registry::has_id(tasks, x) && (exists|k: int| 1 <= k < head + 1 && order@[k] == x) {
                    let k = choose|k: int| 1 <= k < head + 1 && order@[k] == x;
                    assert(pre[k] == x);
                }
            }
        }
        head = head + 1;
    }
    proof {
        assert(deps_closed(tasks, order@));
        assert forall|x: u128|
            #![trigger summary_ids(out@).contains(x)]
            summary_ids(out@).contains(x) <==> (x != start && registry::has_id(tasks, x) && dep_reaches(
                tasks,
                start,
                x,
            )) by {
            if summary_ids(out@).contains(x) {
                let k = choose|k: int| 1 <= k < head && order@[k] == x;
                assert(order@[0] != order@[k]);
            }
            if x != start && registry::has_id(tasks, x) && dep_reaches(tasks, start, x) {
                let p = choose|p: Seq<u128>| #[trigger] dep_walk(tasks, p) && p[0] == start && p.last() == x;
                assert(order@.contains(p[0])) by {
                    assert(order@[0] == p[0]);
                }
                lemma_dep_walk_stays(tasks, order@, p, p.len() - 1);
                let k = choose|k: int| 0 <= k < order@.len() && order@[k] == x;
                assert(k != 0);
            }
        }
        let ids = summary_ids(out@);
        assert forall|i: int| 0 <= i < pos.len() implies 1 <= #[trigger] pos[i] < order@.len() && ids[i]
            == order@[pos[i]] by {}
        lemma_deps_discovery(tasks, order@, opar, oeid, pos, ids);
        assert forall|i: int, j: int, k: nat|
            #![trigger ids[i], dep_within(tasks, start, ids[j], k)]
            0 <= i < j < ids.len() && dep_within(tasks, start, ids[j], k) implies dep_within(tasks, start, ids[i], k) by {
            assert(ids[j] == order@[pos[j]] && ids[i] == order@[pos[i]]);
            assert(lvl[pos[i]] <= lvl[pos[j]]);
            lemma_dep_within_more(tasks, start, order@[pos[i]], lvl[pos[i]], k);
        }
    }
    out
}

/// The task's status points at a trace whose normalized id begins with
/// `needle`.
pub open spec fn trace_matches(t: Task, needle: Seq<char>) -> bool {
    match trace_of_spec(t.status) {
        Some(r) => text::has_prefix(normalize_spec(ids::hyphenated_spec(r.0)), needle),
        None => false,
    }
}

/// The result `chain` owes for `needle` over `tasks`.
pub open spec fn chain_spec(tasks: Seq<Task>, needle: Seq<char>, r: Result<ChainReport, TraceErr>) -> bool {
    let n = normalize_spec(text::strip_prefixes_spec(needle, "trace::"@));
    let ms = tasks.filter(|t: Task| trace_matches(t, n));
    if n.len() == 0 {
        r matches Err(e) && e.is_other_with("no trace reference given"@)
    } else if ms.len() == 1 {
        r matches Ok(report) && {
            &&& Some(report.trace) == trace_of_spec(ms[0].status)
            &&& summarizes(report.task, ms[0])
            &&& is_upstream(tasks, ms[0].id, report.upstream@)
        }
    } else if ms.len() == 0 {
        r matches Err(e) && e.is_other_with(
            "no task in this checkpoint points at trace "@ + text::quoted_text(n),
        )
    } else {
        r matches Err(e) && e.is_other_with(
            text::quoted_text(n) + " is ambiguous \u{2014} "@ + text::decimal_spec(ms.len())
                + " tasks match"@,
        )
    }
}

/// Find the task a trace belongs to — `needle` may be `trace::<uuid>`, a
/// bare uuid, or a prefix — and everything that task waited on.
pub fn chain(registry: &TaskRegistry, needle: &str) -> (r: Result<ChainReport, TraceErr>)
    requires
        registry.wf(),
    ensures
        chain_spec(registry.task_seq(), needle@, r),
{
    proof {
        reveal_strlit("trace::");
    }
    let stripped = text::strip_prefixes(needle, "trace::");
    let n = normalize(stripped.as_str());
    if n.as_str().unicode_len() == 0 {
        return Err(TraceErr::other("no trace reference given"));
    }
    let all = registry.task_slice();
    let ghost seq_all = all@;
    let ghost nv = n@;
    let mut matched: Vec<&Task> = Vec::new();
    let mut i: usize = 0;
    while i < all.len()
        invariant
            seq_all == all@,
            nv == n@,
            i <= all@.len(),
            derefs(matched@) == seq_all.take(i as int).filter(|t: Task| trace_matches(t, nv)),
        decreases all@.len() - i,
    {
        let t = &all[i];
        proof {
            assert(seq_all.take(i as int + 1).drop_last() =~= seq_all.take(i as int));
            reveal(Seq::filter);
        }
        let hit = match trace_of(&t.status) {
            Some(tr) => {
                let key = normalize(ids::hyphenated(tr.0).as_str());
                text::starts_with(key.as_str(), n.as_str())
            },
            None => false,
        };
        if hit {
            let ghost prev = matched@;
            matched.push(t);
            proof {
                crate::trace::lemma_derefs_push(prev, t);
            }
        }
        i = i + 1;
    }
    proof {
        assert(seq_all.take(i as int) =~= seq_all);
    }
    if matched.len() == 1 {
        let task = matched[0];
        proof {
            let ms = derefs(matched@);
            let pred = |t: Task| trace_matches(t, nv);
            assert(ms[0] == *task);
            assert(ms.contains(*task));
            seq_all.lemma_filter_contains_rev(pred, *task);
            seq_all.lemma_filter_pred(pred, 0);
            let k = choose|k: int| 0 <= k < seq_all.len() && seq_all[k] == *task;
            assert(registry::has_id(seq_all, task.id));
        }
        let trace = match trace_of(&task.status) {
            Some(t) => *t,
            None => TraceRef(0),
        };
        return Ok(ChainReport {
            trace,
            task: TaskSummary::from_task(task),
            upstream: upstream_of(registry, task),
        });
    }
    if matched.len() == 0 {
        let m = text::concat(
            "no task in this checkpoint points at trace ",
            text::quoted(n.as_str()).as_str(),
        );
        return Err(TraceErr::Other(m));
    }
    let mut m = text::quoted(n.as_str());
    m.append(" is ambiguous \u{2014} ");
    m.append(text::decimal(matched.len() as u64).as_str());
    m.append(" tasks match");
    Err(TraceErr::Other(m))
}

/// `c` records `t` (present in `before`) moving from its status there.
pub open spec fn change_of(c: StatusChange, before: Seq<Task>, t: Task) -> bool {
    &&& c.id == t.id
    &&& c.title@ == t.title@
    &&& c.from@ == label_of(before[registry::id_index(before, t.id)].status)
    &&& c.to@ == label_of(t.status)
}

/// `t` is in `before` with a different status label.
pub open spec fn moved(before: Seq<Task>, t: Task) -> bool {
    registry::has_id(before, t.id) && label_of(before[registry::id_index(before, t.id)].status)
        != label_of(t.status)
}

/// The tasks of `after` that moved since `before`.
pub open spec fn moved_of(before: Seq<Task>, after: Seq<Task>) -> Seq<Task> {
    after.filter(|t: Task| moved(before, t))
}

/// `out` records every task that moved, in listing order (title, then id).
pub open spec fn changes_listed(before: Seq<Task>, after: Seq<Task>, out: Seq<StatusChange>) -> bool {
    exists|p: Seq<usize>|
        #[trigger] ordering::is_listing(task_keys(moved_of(before, after), false), p) && out.len()
            == p.len() && forall|k: int|
            0 <= k < p.len() ==> change_of(#[trigger] out[k], before, moved_of(before, after)[p[k] as int])
}

/// The tasks of `of` whose id is not in `other`.
pub open spec fn absent_from(of: Seq<Task>, other: Seq<Task>) -> Seq<Task> {
    of.filter(|t: Task| !registry::has_id(other, t.id))
}

/// Compare two checkpoints of a pipeline, by task id: tasks only in
/// `after` are added, tasks only in `before` removed, and tasks in both
/// whose status label differs changed. Each list is ordered by title, then
/// id, so the report never depends on insertion order. Compare labels, not
/// statuses: a task that failed twice with different errors did not change.
pub fn diff(before: &TaskRegistry, after: &TaskRegistry) -> (r: DiffReport)
    requires
        before.wf(),
        after.wf(),
    ensures
        is_listed(absent_from(after.task_seq(), before.task_seq()), false, r.added@),
        is_listed(absent_from(before.task_seq(), after.task_seq()), false, r.removed@),
        changes_listed(before.task_seq(), after.task_seq(), r.changed@),
{
    let ghost bs = before.task_seq();
    let ghost afs = after.task_seq();
    let a_all = after.task_slice();
    let b_all = before.task_slice();
    let mut added: Vec<&Task> = Vec::new();
    let mut moved_tasks: Vec<&Task> = Vec::new();
    let mut i: usize = 0;
    while i < a_all.len()
        invariant
            before.wf(),
            bs == before.task_seq(),
            afs == a_all@,
            i <= afs.len(),
            derefs(added@) == afs.take(i as int).filter(|t: Task| !registry::has_id(bs, t.id)),
            derefs(moved_tasks@) == afs.take(i as int).filter(|t: Task| moved(bs, t)),
        decreases afs.len() - i,
    {
        let t = &a_all[i];
        proof {
            assert(afs.take(i as int + 1).drop_last() =~= afs.take(i as int));
            reveal(Seq::filter);
        }
        match before.get(t.id) {
            None => {
                let ghost prev = added@;
                added.push(t);
                proof {
                    crate::trace::lemma_derefs_push(prev, t);
                }
            },
            Some(previous) => {
                let a = status_label(&previous.status);
                let b = status_label(&t.status);
                let c = text::compare(a, b);
                proof {
                    text::lemma_compare_flips(label_of(previous.status), label_of(t.status));
                }
                if c != 0 {
                    let ghost prev = moved_tasks@;
                    moved_tasks.push(t);
                    proof {
                        crate::trace::lemma_derefs_push(prev, t);
                    }
                }
            },
        }
        i = i + 1;
    }
    proof {
        assert(afs.take(i as int) =~= afs);
    }
    let mut removed: Vec<&Task> = Vec::new();
    let mut i: usize = 0;
    while i < b_all.len()
        invariant
            after.wf(),
            afs == after.task_seq(),
            bs == b_all@,
            i <= bs.len(),
            derefs(removed@) == bs.take(i as int).filter(|t: Task| !registry::has_id(afs, t.id)),
        decreases bs.len() - i,
    {
        let t = &b_all[i];
        proof {
            assert(bs.take(i as int + 1).drop_last() =~= bs.take(i as int));
            reveal(Seq::filter);
        }
        if after.get(t.id).is_none() {
            let ghost prev = removed@;
            removed.push(t);
            proof {
                crate::trace::lemma_derefs_push(prev, t);
            }
        }
        i = i + 1;
    }
    proof {
        assert(bs.take(i as int) =~= bs);
    }
    let ghost cand = derefs(moved_tasks@);
    let p = listing_positions(&moved_tasks, false);
    let mut changed: Vec<StatusChange> = Vec::new();
    let mut k: usize = 0;
    while k < p.len()
        invariant
            before.wf(),
            bs == before.task_seq(),
            cand == derefs(moved_tasks@),
            cand == afs.filter(|t: Task| moved(bs, t)),
            ordering::is_permutation(p@, cand.len()),
            k <= p@.len(),
            changed@.len() == k,
            forall|j: int| 0 <= j < k ==> change_of(#[trigger] changed@[j], bs, cand[p@[j] as int]),
        decreases p@.len() - k,
    {
        let t = moved_tasks[p[k]];
        proof {
            let pred = |t: Task| moved(bs, t);
            afs.lemma_filter_pred(pred, p@[k as int] as int);
            assert(moved(bs, *t));
        }
        let from = match before.get(t.id) {
            Some(previous) => status_label(&previous.status),
            None => "pending",
        };
        changed.push(
            StatusChange {
                id: t.id,
                title: t.title.clone(),
                from: from.to_owned(),
                to: status_label(&t.status).to_owned(),
            },
        );
        k = k + 1;
    }
    proof {
        assert(cand == moved_of(bs, afs));
        assert(ordering::is_listing(task_keys(moved_of(bs, afs), false), p@));
    }
    DiffReport { added: listing(&added, false), removed: listing(&removed, false), changed }
}

} // verus!
