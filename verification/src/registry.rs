//! The task graph: every task, keyed by id, with dependency-aware queries.

use vstd::prelude::*;
use vstd::string::StringExecFns;
use crate::approval::{ApprovalDecision, ApprovalRequest};
use crate::error::TraceErr;
use crate::ids;
use crate::ordering::{self, RankKey};
use crate::task::{Priority, Task, TaskStatus};
use crate::text;
use crate::trace::{derefs, TraceRef};

verus! {

/// True if some task in `tasks` has id `id`.
pub open spec fn has_id(tasks: Seq<Task>, id: u128) -> bool {
    exists|i: int| 0 <= i < tasks.len() && (#[trigger] tasks[i]).id == id
}

/// The position of the task with id `id` (meaningful when `has_id`).
pub open spec fn id_index(tasks: Seq<Task>, id: u128) -> int {
    choose|i: int| 0 <= i < tasks.len() && (#[trigger] tasks[i]).id == id
}

/// No two tasks share an id.
pub open spec fn ids_distinct(tasks: Seq<Task>) -> bool {
    forall|i: int, j: int| 0 <= i < j < tasks.len() ==> (#[trigger] tasks[i]).id != (#[trigger] tasks[j]).id
}

/// `tasks` with `task` inserted: it replaces the task with the same id, or
/// is appended.
pub open spec fn inserted(tasks: Seq<Task>, task: Task) -> Seq<Task> {
    if has_id(tasks, task.id) {
        tasks.update(id_index(tasks, task.id), task)
    } else {
        tasks.push(task)
    }
}

/// `id` names a task that is `Done`.
pub open spec fn done_in(tasks: Seq<Task>, id: u128) -> bool {
    has_id(tasks, id) && tasks[id_index(tasks, id)].status is Done
}

/// Every dependency of `task` names a task that is `Done`; a task with
/// no dependencies is vacuously satisfied.
pub open spec fn deps_done(tasks: Seq<Task>, task: Task) -> bool {
    forall|k: int| 0 <= k < task.depends_on@.len() ==> done_in(tasks, #[trigger] task.depends_on@[k])
}

/// `task` is `Pending` and all its dependencies are `Done`.
pub open spec fn is_ready(tasks: Seq<Task>, task: Task) -> bool {
    task.status is Pending && deps_done(tasks, task)
}

/// The ready tasks, in registry order.
pub open spec fn ready_of(tasks: Seq<Task>) -> Seq<Task> {
    tasks.filter(|t: Task| is_ready(tasks, t))
}

/// The tasks whose status has the given variant, in registry order:
/// `0` pending, `2` done, `3` failed, `4` paused.
pub open spec fn status_code(s: TaskStatus) -> int {
    match s {
        TaskStatus::Pending => 0,
        TaskStatus::Running => 1,
        TaskStatus::Done(_) => 2,
        TaskStatus::Failed { .. } => 3,
        TaskStatus::Paused(_) => 4,
    }
}

/// The tasks whose status code is `code`, in registry order.
pub open spec fn with_status(tasks: Seq<Task>, code: int) -> Seq<Task> {
    tasks.filter(|t: Task| status_code(t.status) == code)
}

/// The ranking key of `all_by_priority`.
pub open spec fn priority_keys(tasks: Seq<Task>) -> Seq<RankKey> {
    tasks.map_values(|t: Task| (t.priority.rank_spec() as i128, 0u128))
}

/// The error text for an operation on an id the registry does not hold.
pub open spec fn unknown_message(verb: Seq<char>, id: u128) -> Seq<char> {
    "cannot "@ + verb + " unknown task "@ + ids::hyphenated_spec(id)
}

fn unknown_text(verb: &str, id: u128) -> (s: String)
    ensures
        s@ == unknown_message(verb@, id),
{
    let mut s = text::concat("cannot ", verb);
    s.append(" unknown task ");
    s.append(ids::hyphenated(id).as_str());
    s
}

/// The runtime task graph: owns every task and resolves dependency order.
#[derive(Debug, Clone)]
pub struct TaskRegistry {
    tasks: Vec<Task>,
}

impl TaskRegistry {
    /// The tasks, in the order their ids were first inserted.
    pub closed spec fn task_seq(self) -> Seq<Task> {
        self.tasks@
    }

    /// No two tasks share an id.
    pub closed spec fn wf(self) -> bool {
        ids_distinct(self.tasks@)
    }

    /// A well-formed registry's tasks have distinct ids.
    pub proof fn lemma_ids_distinct(self)
        requires
            self.wf(),
        ensures
            ids_distinct(self.task_seq()),
    {
    }

    /// An empty registry.
    pub fn new() -> (r: TaskRegistry)
        ensures
            r.wf(),
            r.task_seq().len() == 0,
    {
        TaskRegistry { tasks: Vec::new() }
    }

    /// A registry holding `tasks`, inserted in order (a later task replaces
    /// an earlier one with the same id).
    pub fn from_tasks(tasks: Vec<Task>) -> (r: TaskRegistry)
        ensures
            r.wf(),
            r.task_seq() == tasks@.fold_left(Seq::<Task>::empty(), |acc: Seq<Task>, t: Task| inserted(acc, t)),
    {
        let mut reg = TaskRegistry::new();
        let mut rest = tasks;
        let ghost all = rest@;
        let mut i: usize = 0;
        let n = rest.len();
        while i < n
            invariant
                n == all.len(),
                i <= n,
                rest@ == all.skip(i as int),
                reg.wf(),
                reg.task_seq() == all.take(i as int).fold_left(
                    Seq::<Task>::empty(),
                    |acc: Seq<Task>, t: Task| inserted(acc, t),
                ),
            decreases n - i,
        {
            proof {
                assert(rest@.len() > 0);
            }
            let t = rest.remove(0);
            proof {
                assert(t == all[i as int]);
                assert(rest@ =~= all.skip(i as int + 1));
                assert(all.take(i as int + 1).drop_last() =~= all.take(i as int));
                assert(all.take(i as int + 1).last() == t);
            }
            reg.insert(t);
            i = i + 1;
        }
        proof {
            assert(all.take(n as int) =~= all);
        }
        reg
    }

    /// The position of the task with id `id`, if any.
    fn find(&self, id: u128) -> (k: Option<usize>)
        requires
            self.wf(),
        ensures
            match k {
                Some(k) => k < self.tasks@.len() && self.tasks@[k as int].id == id && k == id_index(
                    self.tasks@,
                    id,
                ),
                None => !has_id(self.tasks@, id),
            },
    {
        let mut i: usize = 0;
        while i < self.tasks.len()
            invariant
                self.wf(),
                i <= self.tasks@.len(),
                forall|j: int| 0 <= j < i ==> (#[trigger] self.tasks@[j]).id != id,
            decreases self.tasks@.len() - i,
        {
            if self.tasks[i].id == id {
                proof {
                    let c = id_index(self.tasks@, id);
                    assert(self.tasks@[i as int].id == id);
                    if c != i as int {
                        if c < i {
                            assert(self.tasks@[c].id != self.tasks@[i as int].id);
                        } else {
                            assert(self.tasks@[i as int].id != self.tasks@[c].id);
                        }
                    }
                }
                return Some(i);
            }
            i = i + 1;
        }
        None
    }

    /// Insert `task`, replacing any task with the same id.
    pub fn insert(&mut self, task: Task)
        requires
            old(self).wf(),
        ensures
            final(self).wf(),
            final(self).task_seq() == inserted(old(self).task_seq(), task),
    {
        match self.find(task.id) {
            Some(k) => {
                self.tasks.set(k, task);
            },
            None => {
                self.tasks.push(task);
            },
        }
    }

    /// Mutably borrow the task with id `id`. The caller may change anything
    /// but the id.
    pub fn get_mut(&mut self, id: u128) -> (r: Option<&mut Task>)
        requires
            old(self).wf(),
        ensures
            match r {
                Some(t) => {
                    &&& has_id(old(self).task_seq(), id)
                    &&& *t == old(self).task_seq()[id_index(old(self).task_seq(), id)]
                    &&& final(self).task_seq() == old(self).task_seq().update(
                        id_index(old(self).task_seq(), id),
                        *final(t),
                    )
                    &&& final(t).id == id ==> final(self).wf()
                },
                None => !has_id(old(self).task_seq(), id) && *final(self) == *old(self),
            },
    {
        match self.find(id) {
            Some(k) => Some(&mut self.tasks[k]),
            None => None,
        }
    }

    /// Borrow the task with id `id`.
    pub fn get(&self, id: u128) -> (r: Option<&Task>)
        requires
            self.wf(),
        ensures
            match r {
                Some(t) => has_id(self.task_seq(), id) && *t == self.task_seq()[id_index(
                    self.task_seq(),
                    id,
                )],
                None => !has_id(self.task_seq(), id),
            },
    {
        match self.find(id) {
            Some(k) => Some(&self.tasks[k]),
            None => None,
        }
    }

    /// The tasks, in registry order.
    pub(crate) fn task_slice(&self) -> (r: &[Task])
        ensures
            r@ == self.task_seq(),
    {
        self.tasks.as_slice()
    }

    /// Total number of tasks.
    pub fn total(&self) -> (n: usize)
        ensures
            n == self.task_seq().len(),
    {
        self.tasks.len()
    }

    /// Mark the task with id `id` as `Done` against `trace_ref`; an unknown
    /// id changes nothing.
    pub fn complete(&mut self, id: u128, trace_ref: TraceRef)
        requires
            old(self).wf(),
        ensures
            final(self).wf(),
            has_id(old(self).task_seq(), id) ==> {
                let k = id_index(old(self).task_seq(), id);
                let t = final(self).task_seq()[k];
                &&& final(self).task_seq() == old(self).task_seq().update(k, t)
                &&& t == (Task {
                    status: TaskStatus::Done(trace_ref),
                    assigned_to: None,
                    updated_at: t.updated_at,
                    ..old(self).task_seq()[k]
                })
            },
            !has_id(old(self).task_seq(), id) ==> *final(self) == *old(self),
    {
        if let Some(k) = self.find(id) {
            let ghost before = self.tasks@;
            self.tasks[k].complete(trace_ref);
            proof {
                assert(self.tasks@ =~= before.update(k as int, self.tasks@[k as int]));
                assert(ids_distinct(self.tasks@)) by {
                    assert forall|i: int, j: int| 0 <= i < j < self.tasks@.len() implies (
                    #[trigger] self.tasks@[i]).id != (#[trigger] self.tasks@[j]).id by {
                        assert(before[i].id != before[j].id);
                    }
                }
            }
        }
    }

    /// Stop the task with id `id` to wait on `request`. An unknown id is an
    /// error and changes nothing.
    pub fn pause(&mut self, id: u128, request: ApprovalRequest) -> (r: Result<(), TraceErr>)
        requires
            old(self).wf(),
        ensures
            final(self).wf(),
            has_id(old(self).task_seq(), id) ==> {
                let k = id_index(old(self).task_seq(), id);
                let t = final(self).task_seq()[k];
                &&& r is Ok
                &&& final(self).task_seq() == old(self).task_seq().update(k, t)
                &&& t == (Task {
                    status: TaskStatus::Paused(request),
                    updated_at: t.updated_at,
                    ..old(self).task_seq()[k]
                })
            },
            !has_id(old(self).task_seq(), id) ==> {
                &&& *final(self) == *old(self)
                &&& r matches Err(e) && e.is_other_with(unknown_message("pause"@, id))
            },
    {
        match self.find(id) {
            Some(k) => {
                let ghost before = self.tasks@;
                self.tasks[k].pause(request);
                proof {
                    assert(self.tasks@ =~= before.update(k as int, self.tasks@[k as int]));
                    assert(ids_distinct(self.tasks@)) by {
                        assert forall|i: int, j: int| 0 <= i < j < self.tasks@.len() implies (
                        #[trigger] self.tasks@[i]).id != (#[trigger] self.tasks@[j]).id by {
                            assert(before[i].id != before[j].id);
                        }
                    }
                }
                Ok(())
            },
            None => Err(TraceErr::other(unknown_text("pause", id).as_str())),
        }
    }

    /// Apply a human's decision to the paused task with id `id` (see
    /// `Task::resume`). An unknown id, or a task that is not paused, is an
    /// error and changes nothing.
    pub fn resume(&mut self, id: u128, decision: ApprovalDecision) -> (r: Result<(), TraceErr>)
        requires
            old(self).wf(),
        ensures
            final(self).wf(),
            has_id(old(self).task_seq(), id) ==> {
                let k = id_index(old(self).task_seq(), id);
                let before = old(self).task_seq()[k];
                let t = final(self).task_seq()[k];
                &&& final(self).task_seq() == old(self).task_seq().update(k, t)
                &&& t.id == before.id
                &&& match before.status {
                    TaskStatus::Paused(request) => {
                        &&& r is Ok
                        &&& match decision {
                            ApprovalDecision::Approved { .. } => t == (Task {
                                status: TaskStatus::Pending,
                                updated_at: t.updated_at,
                                ..before
                            }),
                            ApprovalDecision::Rejected { by, reason } => {
                                &&& crate::task::denied(t.status, request.trace, by@, reason@)
                                &&& t == (Task {
                                    status: t.status,
                                    assigned_to: None,
                                    updated_at: t.updated_at,
                                    ..before
                                })
                            },
                        }
                    },
                    _ => {
                        &&& t == before
                        &&& r matches Err(e) && e.is_other_with(
                            crate::task::not_paused_message(id),
                        )
                    },
                }
            },
            !has_id(old(self).task_seq(), id) ==> {
                &&& *final(self) == *old(self)
                &&& r matches Err(e) && e.is_other_with(unknown_message("resume"@, id))
            },
    {
        match self.find(id) {
            Some(k) => {
                let ghost before = self.tasks@;
                let r = self.tasks[k].resume(decision);
                proof {
                    assert(self.tasks@ =~= before.update(k as int, self.tasks@[k as int]));
                    assert(ids_distinct(self.tasks@)) by {
                        assert forall|i: int, j: int| 0 <= i < j < self.tasks@.len() implies (
                        #[trigger] self.tasks@[i]).id != (#[trigger] self.tasks@[j]).id by {
                            assert(before[i].id != before[j].id);
                        }
                    }
                }
                r
            },
            None => Err(TraceErr::other(unknown_text("resume", id).as_str())),
        }
    }

    /// True if every dependency of `task` names a task that is `Done`.
    fn dependencies_satisfied(&self, task: &Task) -> (b: bool)
        requires
            self.wf(),
        ensures
            b == deps_done(self.tasks@, *task),
    {
        let mut i: usize = 0;
        while i < task.depends_on.len()
            invariant
                self.wf(),
                i <= task.depends_on@.len(),
                forall|k: int| 0 <= k < i ==> done_in(self.tasks@, #[trigger] task.depends_on@[k]),
            decreases task.depends_on@.len() - i,
        {
            let dep = task.depends_on[i];
            match self.find(dep) {
                Some(k) => {
                    if !self.tasks[k].is_done() {
                        return false;
                    }
                },
                None => {
                    return false;
                },
            }
            i = i + 1;
        }
        true
    }

    /// The `Pending` tasks whose dependencies are all `Done`, in registry
    /// order.
    pub fn ready_tasks(&self) -> (r: Vec<&Task>)
        requires
            self.wf(),
        ensures
            derefs(r@) == ready_of(self.task_seq()),
    {
        let ghost all = self.tasks@;
        let mut out: Vec<&Task> = Vec::new();
        let mut i: usize = 0;
        while i < self.tasks.len()
            invariant
                self.wf(),
                all == self.tasks@,
                i <= all.len(),
                derefs(out@) == all.take(i as int).filter(|t: Task| is_ready(all, t)),
            decreases all.len() - i,
        {
            let t = &self.tasks[i];
            proof {
                assert(all.take(i as int + 1).drop_last() =~= all.take(i as int));
                reveal(Seq::filter);
            }
            if t.is_pending() && self.dependencies_satisfied(t) {
                out.push(t);
            }
            i = i + 1;
        }
        proof {
            assert(all.take(i as int) =~= all);
        }
        out
    }

    /// The tasks whose status has code `code` (see `status_code`).
    fn with_status_code(&self, code: u8) -> (r: Vec<&Task>)
        ensures
            derefs(r@) == with_status(self.task_seq(), code as int),
    {
        let ghost all = self.tasks@;
        let mut out: Vec<&Task> = Vec::new();
        let mut i: usize = 0;
        while i < self.tasks.len()
            invariant
                all == self.tasks@,
                i <= all.len(),
                derefs(out@) == with_status(all.take(i as int), code as int),
            decreases all.len() - i,
        {
            let t = &self.tasks[i];
            proof {
                assert(all.take(i as int + 1).drop_last() =~= all.take(i as int));
                reveal(Seq::filter);
            }
            let c: u8 = match t.status {
                TaskStatus::Pending => 0,
                TaskStatus::Running => 1,
                TaskStatus::Done(_) => 2,
                TaskStatus::Failed { .. } => 3,
                TaskStatus::Paused(_) => 4,
            };
            if c == code {
                out.push(t);
            }
            i = i + 1;
        }
        proof {
            assert(all.take(i as int) =~= all);
        }
        out
    }

    /// The `Pending` tasks, in registry order.
    pub fn pending(&self) -> (r: Vec<&Task>)
        ensures
            derefs(r@) == with_status(self.task_seq(), 0),
    {
        self.with_status_code(0)
    }

    /// The `Done` tasks, in registry order.
    pub fn done(&self) -> (r: Vec<&Task>)
        ensures
            derefs(r@) == with_status(self.task_seq(), 2),
    {
        self.with_status_code(2)
    }

    /// The `Failed` tasks, in registry order.
    pub fn failed(&self) -> (r: Vec<&Task>)
        ensures
            derefs(r@) == with_status(self.task_seq(), 3),
    {
        self.with_status_code(3)
    }

    /// The tasks waiting on a human decision: the inbox an approval channel
    /// reads from.
    pub fn paused(&self) -> (r: Vec<&Task>)
        ensures
            derefs(r@) == with_status(self.task_seq(), 4),
    {
        self.with_status_code(4)
    }

    /// Every task, highest priority first; equal priorities keep registry
    /// order.
    pub fn all_by_priority(&self) -> (r: Vec<&Task>)
        ensures
            r@.len() == self.task_seq().len(),
            exists|p: Seq<usize>|
                #[trigger] ordering::is_stable_ranking(priority_keys(self.task_seq()), p)
                    && derefs(r@) == p.map_values(|k: usize| self.task_seq()[k as int]),
    {
        let ghost all = self.tasks@;
        let mut keys: Vec<RankKey> = Vec::new();
        let mut i: usize = 0;
        while i < self.tasks.len()
            invariant
                all == self.tasks@,
                i <= all.len(),
                keys@ == priority_keys(all.take(i as int)),
            decreases all.len() - i,
        {
            let rank = self.tasks[i].priority.rank();
            keys.push((rank as i128, 0u128));
            proof {
                assert(all.take(i as int + 1) =~= all.take(i as int).push(all[i as int]));
            }
            i = i + 1;
        }
        proof {
            assert(all.take(i as int) =~= all);
        }
        let p = ordering::rank_desc(&keys);
        let mut out: Vec<&Task> = Vec::new();
        let mut j: usize = 0;
        while j < p.len()
            invariant
                all == self.tasks@,
                ordering::is_permutation(p@, all.len()),
                j <= p@.len(),
                out@.len() == j,
                derefs(out@) == p@.take(j as int).map_values(|k: usize| all[k as int]),
            decreases p@.len() - j,
        {
            let ghost prev = out@;
            out.push(&self.tasks[p[j]]);
            proof {
                crate::trace::lemma_derefs_push(prev, &all[p@[j as int] as int]);
                assert(p@.take(j as int + 1) =~= p@.take(j as int).push(p@[j as int]));
            }
            j = j + 1;
        }
        proof {
            assert(p@.take(j as int) =~= p@);
            assert(keys@ == priority_keys(self.task_seq()));
            assert(ordering::is_stable_ranking(priority_keys(self.task_seq()), p@));
        }
        out
    }
}

impl Default for TaskRegistry {
    /// An empty registry.
    fn default() -> (r: TaskRegistry)
        ensures
            r.wf(),
            r.task_seq().len() == 0,
    {
        TaskRegistry::new()
    }
}

} // verus!
