//! The tables the inspector prints for a person.

use vstd::prelude::*;
use vstd::string::StringExecFns;
use vstd::string::StrSliceExecFns;
use crate::clock;
use crate::error;
use crate::ids;
use crate::inspect::{self, ChainReport, DiffReport, StatusChange, TaskSummary};
use crate::registry::{self, TaskRegistry};
use crate::task::{Task, TaskStatus};
use crate::text;
use crate::trace;

verus! {

/// `n` spaces.
pub open spec fn spaces(n: nat) -> Seq<char> {
    Seq::new(n, |i: int| ' ')
}

/// `s` padded with spaces on the right to at least `width` characters, as
/// `{:<width}` formats it.
pub open spec fn pad_spec(s: Seq<char>, width: nat) -> Seq<char> {
    if s.len() >= width {
        s
    } else {
        s + spaces((width - s.len()) as nat)
    }
}

/// Append `s` padded to `width` characters.
fn push_padded(out: &mut String, s: &str, width: usize)
    ensures
        final(out)@ == old(out)@ + pad_spec(s@, width as nat),
{
    out.append(s);
    let n = s.unicode_len();
    let mut k: usize = n;
    while k < width
        invariant
            n == s@.len(),
            k == n || k <= width,
            k >= n,
            out@ == old(out)@ + s@ + spaces((k - n) as nat),
        decreases width - k,
    {
        text::push_char(out, ' ');
        proof {
            assert(spaces((k + 1 - n) as nat) =~= spaces((k - n) as nat).push(' '));
        }
        k = k + 1;
    }
    proof {
        if n >= width {
            assert(k == n);
            assert(spaces(0) =~= Seq::<char>::empty());
            assert(out@ =~= old(out)@ + s@);
        } else {
            assert(k == width);
            assert(out@ =~= old(out)@ + (s@ + spaces((width - n) as nat)));
        }
    }
}

/// The table row of a summary: short id, status, priority, title.
pub open spec fn row_spec(s: TaskSummary) -> Seq<char> {
    pad_spec(inspect::short_spec(s.id), 8) + "  "@ + pad_spec(s.status@, 8) + "  "@ + pad_spec(
        s.priority@,
        8,
    ) + "  "@ + s.title@
}

impl TaskSummary {
    /// One aligned row: `id  status  priority  title`.
    pub fn row(&self) -> (r: String)
        ensures
            r@ == row_spec(*self),
    {
        let mut out = String::new();
        push_padded(&mut out, inspect::short(self.id).as_str(), 8);
        out.append("  ");
        push_padded(&mut out, self.status.as_str(), 8);
        out.append("  ");
        push_padded(&mut out, self.priority.as_str(), 8);
        out.append("  ");
        out.append(self.title.as_str());
        proof {
            assert(out@ =~= row_spec(*self));
        }
        out
    }
}

/// Every row, each preceded by a newline.
pub open spec fn rows_spec(rows: Seq<TaskSummary>) -> Seq<char>
    decreases rows.len(),
{
    if rows.len() == 0 {
        Seq::empty()
    } else {
        rows_spec(rows.drop_last()) + "\n"@ + row_spec(rows.last())
    }
}

/// The header of a task table.
pub open spec fn header_spec() -> Seq<char> {
    pad_spec("id"@, 8) + "  "@ + pad_spec("status"@, 8) + "  "@ + pad_spec("priority"@, 8) + "  "@
        + "title"@
}

/// The `list` table.
pub open spec fn list_text(rows: Seq<TaskSummary>) -> Seq<char> {
    if rows.len() == 0 {
        "no matching tasks"@
    } else {
        header_spec() + rows_spec(rows) + "\n\n"@ + text::decimal_spec(rows.len()) + " task(s)"@
    }
}

/// The `list` table: a header, one row per task, and a count; or a line
/// saying nothing matched.
pub fn render_list(rows: &[TaskSummary]) -> (r: String)
    ensures
        r@ == list_text(rows@),
{
    if rows.len() == 0 {
        return "no matching tasks".to_owned();
    }
    let mut out = String::new();
    push_padded(&mut out, "id", 8);
    out.append("  ");
    push_padded(&mut out, "status", 8);
    out.append("  ");
    push_padded(&mut out, "priority", 8);
    out.append("  ");
    out.append("title");
    proof {
        assert(out@ =~= header_spec());
    }
    let mut i: usize = 0;
    while i < rows.len()
        invariant
            i <= rows@.len(),
            out@ == header_spec() + rows_spec(rows@.take(i as int)),
        decreases rows@.len() - i,
    {
        out.append("\n");
        let row = rows[i].row();
        out.append(row.as_str());
        proof {
            assert(rows@.take(i as int + 1).drop_last() =~= rows@.take(i as int));
            assert(out@ =~= header_spec() + rows_spec(rows@.take(i as int + 1)));
        }
        i = i + 1;
    }
    proof {
        assert(rows@.take(i as int) =~= rows@);
    }
    out.append("\n\n");
    out.append(text::decimal(rows.len() as u64).as_str());
    out.append(" task(s)");
    out
}

/// `s` without trailing whitespace.
///
/// Calls `str::trim_end`, which strips Unicode `White_Space` from the end.
#[verifier::external_body]
fn trim_end(s: &str) -> (r: String)
    ensures
        r@ == text::trim_end_spec(s@),
{
    s.trim_end().to_owned()
}

/// One `+` or `-` line of a diff.
pub open spec fn diff_line(sign: Seq<char>, s: TaskSummary) -> Seq<char> {
    sign + " "@ + pad_spec(inspect::short_spec(s.id), 8) + "  "@ + s.title@ + "\n"@
}

/// One `~` line of a diff.
pub open spec fn change_line(c: StatusChange) -> Seq<char> {
    "~ "@ + pad_spec(inspect::short_spec(c.id), 8) + "  "@ + c.title@ + ": "@ + c.from@
        + " \u{2192} "@ + c.to@ + "\n"@
}

/// The lines for every summary, with `sign`.
pub open spec fn diff_lines(sign: Seq<char>, items: Seq<TaskSummary>) -> Seq<char>
    decreases items.len(),
{
    if items.len() == 0 {
        Seq::empty()
    } else {
        diff_lines(sign, items.drop_last()) + diff_line(sign, items.last())
    }
}

/// The lines for every status change.
pub open spec fn change_lines(items: Seq<StatusChange>) -> Seq<char>
    decreases items.len(),
{
    if items.len() == 0 {
        Seq::empty()
    } else {
        change_lines(items.drop_last()) + change_line(items.last())
    }
}

/// The `diff` text.
pub open spec fn diff_text(r: DiffReport) -> Seq<char> {
    if r.added@.len() == 0 && r.removed@.len() == 0 && r.changed@.len() == 0 {
        "no changes"@
    } else {
        text::trim_end_spec(
            diff_lines("+"@, r.added@) + diff_lines("-"@, r.removed@) + change_lines(r.changed@),
        )
    }
}

fn push_diff_lines(out: &mut String, sign: &str, items: &Vec<TaskSummary>)
    ensures
        final(out)@ == old(out)@ + diff_lines(sign@, items@),
{
    let mut i: usize = 0;
    while i < items.len()
        invariant
            i <= items@.len(),
            out@ == old(out)@ + diff_lines(sign@, items@.take(i as int)),
        decreases items@.len() - i,
    {
        out.append(sign);
        out.append(" ");
        push_padded(out, inspect::short(items[i].id).as_str(), 8);
        out.append("  ");
        out.append(items[i].title.as_str());
        out.append("\n");
        proof {
            assert(items@.take(i as int + 1).drop_last() =~= items@.take(i as int));
            assert(out@ =~= old(out)@ + diff_lines(sign@, items@.take(i as int + 1)));
        }
        i = i + 1;
    }
    proof {
        assert(items@.take(i as int) =~= items@);
    }
}

/// The `diff` text: `+` for added tasks, `-` for removed, `~` for status
/// moves; or a line saying nothing changed.
pub fn render_diff(report: &DiffReport) -> (r: String)
    ensures
        r@ == diff_text(*report),
{
    if report.is_empty() {
        return "no changes".to_owned();
    }
    let mut out = String::new();
    push_diff_lines(&mut out, "+", &report.added);
    push_diff_lines(&mut out, "-", &report.removed);
    let ghost before = out@;
    let mut i: usize = 0;
    while i < report.changed.len()
        invariant
            i <= report.changed@.len(),
            out@ == before + change_lines(report.changed@.take(i as int)),
        decreases report.changed@.len() - i,
    {
        let c = &report.changed[i];
        out.append("~ ");
        push_padded(&mut out, inspect::short(c.id).as_str(), 8);
        out.append("  ");
        out.append(c.title.as_str());
        out.append(": ");
        out.append(c.from.as_str());
        out.append(" \u{2192} ");
        out.append(c.to.as_str());
        out.append("\n");
        proof {
            assert(report.changed@.take(i as int + 1).drop_last() =~= report.changed@.take(i as int));
            assert(out@ =~= before + change_lines(report.changed@.take(i as int + 1)));
        }
        i = i + 1;
    }
    proof {
        assert(report.changed@.take(i as int) =~= report.changed@);
    }
    trim_end(out.as_str())
}

/// One upstream line of a chain.
pub open spec fn upstream_line(s: TaskSummary) -> Seq<char> {
    "  "@ + pad_spec(inspect::short_spec(s.id), 8) + "  "@ + pad_spec(s.status@, 8) + "  "@
        + pad_spec(s.title@, 28) + "  "@ + match s.trace {
        Some(t) => trace::trace_ref_text(t),
        None => "no trace yet"@,
    } + "\n"@
}

/// The lines for every upstream task.
pub open spec fn upstream_lines(items: Seq<TaskSummary>) -> Seq<char>
    decreases items.len(),
{
    if items.len() == 0 {
        Seq::empty()
    } else {
        upstream_lines(items.drop_last()) + upstream_line(items.last())
    }
}

/// The `chain` text.
pub open spec fn chain_text(r: ChainReport) -> Seq<char> {
    let head = trace::trace_ref_text(r.trace) + "\n  produced by  "@ + r.task.title@ + " ["@
        + r.task.status@ + "]\n"@;
    if r.upstream@.len() == 0 {
        head + "\nnothing upstream \u{2014} this"@ + " task had no dependencies"@
    } else {
        text::trim_end_spec(head + "\nupstream, nearest first\n"@ + upstream_lines(r.upstream@))
    }
}

/// Append the chain line for one upstream task.
fn push_upstream_line(out: &mut String, s: &TaskSummary)
    ensures
        final(out)@ == old(out)@ + upstream_line(*s),
{
    let ghost start = out@;
    out.append("  ");
    push_padded(out, inspect::short(s.id).as_str(), 8);
    out.append("  ");
    push_padded(out, s.status.as_str(), 8);
    out.append("  ");
    push_padded(out, s.title.as_str(), 28);
    out.append("  ");
    match &s.trace {
        Some(t) => {
            let shown = t.to_text();
            out.append(shown.as_str());
        },
        None => {
            out.append("no trace yet");
        },
    }
    out.append("\n");
    proof {
        assert(out@ =~= start + upstream_line(*s));
    }
}

/// The `chain` text: the trace, the task that produced it, and everything
/// upstream, nearest first.
pub fn render_chain(report: &ChainReport) -> (r: String)
    ensures
        r@ == chain_text(*report),
{
    let mut out = report.trace.to_text();
    out.append("\n  produced by  ");
    out.append(report.task.title.as_str());
    out.append(" [");
    out.append(report.task.status.as_str());
    out.append("]\n");
    if report.upstream.len() == 0 {
        out.append("\nnothing upstream \u{2014} this");
        out.append(" task had no dependencies");
        return out;
    }
    out.append("\nupstream, nearest first\n");
    let ghost before = out@;
    let mut i: usize = 0;
    while i < report.upstream.len()
        invariant
            i <= report.upstream@.len(),
            out@ == before + upstream_lines(report.upstream@.take(i as int)),
        decreases report.upstream@.len() - i,
    {
        push_upstream_line(&mut out, &report.upstream[i]);
        proof {
            assert(report.upstream@.take(i as int + 1).drop_last() =~= report.upstream@.take(i as int));
            assert(out@ =~= before + upstream_lines(report.upstream@.take(i as int + 1)));
        }
        i = i + 1;
    }
    proof {
        assert(report.upstream@.take(i as int) =~= report.upstream@);
    }
    trim_end(out.as_str())
}

/// One line of the `show` view: the label padded to 14 columns, then the
/// value.
pub open spec fn show_line(label: Seq<char>, value: Seq<char>) -> Seq<char> {
    pad_spec(label, 14) + value + "\n"@
}

/// What `show` prints for a field with nothing recorded.
pub open spec fn dash() -> Seq<char> {
    "\u{2014}"@
}

/// A timestamp as `show` prints it.
pub open spec fn stamp_text(t: clock::Timestamp) -> Seq<char> {
    clock::rfc3339_text(t.secs, t.nanos)
}

/// How `show` describes a dependency: its title and status, or a note that
/// the checkpoint lacks it.
pub open spec fn dependency_text(tasks: Seq<Task>, id: u128) -> Seq<char> {
    if registry::has_id(tasks, id) {
        let d = tasks[registry::id_index(tasks, id)];
        d.title@ + " ["@ + inspect::label_of(d.status) + "]"@
    } else {
        "<not in this checkpoint>"@
    }
}

/// One line per dependency: its short id and its description.
pub open spec fn dependency_lines(tasks: Seq<Task>, ids: Seq<u128>) -> Seq<char>
    decreases ids.len(),
{
    if ids.len() == 0 {
        Seq::empty()
    } else {
        dependency_lines(tasks, ids.drop_last()) + "  "@ + inspect::short_spec(ids.last()) + "  "@
            + dependency_text(tasks, ids.last()) + "\n"@
    }
}

/// The lines a status adds to `show`: a failure's text, or the question a
/// paused task waits on, when it was asked, and its context.
pub open spec fn status_lines(status: TaskStatus, low_confidence: Seq<char>, context: Option<Seq<char>>) -> Seq<char> {
    match status {
        TaskStatus::Failed { error, .. } => show_line(
            "error"@,
            match error::text_spec(error) {
                Some(t) => t,
                None => low_confidence,
            },
        ),
        TaskStatus::Paused(req) => show_line("waiting on"@, req.question@) + show_line(
            "asked"@,
            stamp_text(req.requested_at),
        ) + match context {
            Some(c) => show_line("context"@, c),
            None => Seq::empty(),
        },
        _ => Seq::empty(),
    }
}

/// The `show` text for `task`, its dependencies looked up in `tasks`.
pub open spec fn show_text(
    tasks: Seq<Task>,
    task: Task,
    confidence: Seq<char>,
    low_confidence: Seq<char>,
    context: Option<Seq<char>>,
) -> Seq<char> {
    text::trim_end_spec(
        show_line("id"@, ids::hyphenated_spec(task.id)) + show_line("title"@, task.title@) + match task.goal {
            Some(g) => show_line("goal"@, g@),
            None => Seq::empty(),
        } + show_line("status"@, inspect::label_of(task.status)) + show_line(
            "priority"@,
            task.priority.name_spec(),
        ) + show_line(
            "assigned to"@,
            match task.assigned_to {
                Some(a) => a@,
                None => dash(),
            },
        ) + show_line(
            "confidence"@,
            if task.confidence is Some {
                confidence
            } else {
                dash()
            },
        ) + show_line("created"@, stamp_text(task.created_at)) + show_line(
            "updated"@,
            stamp_text(task.updated_at),
        ) + match inspect::trace_of_spec(task.status) {
            Some(t) => show_line("trace"@, trace::trace_ref_text(t)),
            None => Seq::empty(),
        } + status_lines(task.status, low_confidence, context) + if task.depends_on@.len() == 0 {
            show_line("depends on"@, dash())
        } else {
            "depends on\n"@ + dependency_lines(tasks, task.depends_on@)
        },
    )
}

/// Append one `show` line.
fn push_line(out: &mut String, label: &str, value: &str)
    ensures
        final(out)@ == old(out)@ + show_line(label@, value@),
{
    push_padded(out, label, 14);
    out.append(value);
    out.append("\n");
}

/// Append one `show` line holding a timestamp.
fn push_stamp(out: &mut String, label: &str, t: &clock::Timestamp)
    requires
        t.representable(),
    ensures
        final(out)@ == old(out)@ + show_line(label@, stamp_text(*t)),
{
    if let Some(text) = clock::rfc3339(t) {
        push_line(out, label, text.as_str());
    }
}

/// The full `show` view of one task: its fields, what its status points
/// at, and each dependency with its state in `registry`.
///
/// Three pieces come rendered by the caller, since they need binary64 or
/// JSON formatting: `confidence`, the task's confidence to two decimals
/// (read only when it has one); `low_confidence`, the text of a
/// `LowConfidence` failure (read only for such a failure); and `context`,
/// a paused task's JSON context, `None` when it is JSON `null`. Every
/// timestamp shown must be representable, as every one the clock gives is.
pub fn render_show(
    registry: &TaskRegistry,
    task: &Task,
    confidence: &str,
    low_confidence: &str,
    context: Option<&str>,
) -> (r: String)
    requires
        registry.wf(),
        task.created_at.representable(),
        task.updated_at.representable(),
        task.status matches TaskStatus::Paused(request) ==> request.requested_at.representable(),
    ensures
        r@ == show_text(
            registry.task_seq(),
            *task,
            confidence@,
            low_confidence@,
            match context {
                Some(c) => Some(c@),
                None => None,
            },
        ),
{
    let ghost ctx: Option<Seq<char>> = match context {
        Some(c) => Some(c@),
        None => None,
    };
    let mut out = String::new();
    let id = ids::hyphenated(task.id);
    push_line(&mut out, "id", id.as_str());
    push_line(&mut out, "title", task.title.as_str());
    let ghost a = out@;
    if let Some(goal) = &task.goal {
        push_line(&mut out, "goal", goal.as_str());
    }
    let ghost b = out@;
    push_line(&mut out, "status", inspect::status_label(&task.status));
    push_line(&mut out, "priority", task.priority.as_str());
    match &task.assigned_to {
        Some(who) => push_line(&mut out, "assigned to", who.as_str()),
        None => push_line(&mut out, "assigned to", "\u{2014}"),
    }
    if task.confidence.is_some() {
        push_line(&mut out, "confidence", confidence);
    } else {
        push_line(&mut out, "confidence", "\u{2014}");
    }
    push_stamp(&mut out, "created", &task.created_at);
    push_stamp(&mut out, "updated", &task.updated_at);
    let ghost c = out@;
    if let Some(t) = inspect::trace_of(&task.status) {
        let shown = t.to_text();
        push_line(&mut out, "trace", shown.as_str());
    }
    let ghost d = out@;
    match &task.status {
        TaskStatus::Failed { error, .. } => match error.to_text() {
            Some(text) => push_line(&mut out, "error", text.as_str()),
            None => push_line(&mut out, "error", low_confidence),
        },
        TaskStatus::Paused(request) => {
            push_line(&mut out, "waiting on", request.question.as_str());
            push_stamp(&mut out, "asked", &request.requested_at);
            if let Some(shown) = context {
                push_line(&mut out, "context", shown);
            }
        },
        _ => {},
    }
    proof {
        assert(out@ =~= d + status_lines(task.status, low_confidence@, ctx));
    }
    let ghost e = out@;
    if task.depends_on.len() == 0 {
        push_line(&mut out, "depends on", "\u{2014}");
    } else {
        out.append("depends on\n");
        let ghost f = out@;
        let mut i: usize = 0;
        while i < task.depends_on.len()
            invariant
                registry.wf(),
                i <= task.depends_on@.len(),
                out@ == f + dependency_lines(registry.task_seq(), task.depends_on@.take(i as int)),
            decreases task.depends_on@.len() - i,
        {
            let dep_id = task.depends_on[i];
            out.append("  ");
            let short = inspect::short(dep_id);
            out.append(short.as_str());
            out.append("  ");
            match registry.get(dep_id) {
                Some(dep) => {
                    out.append(dep.title.as_str());
                    out.append(" [");
                    out.append(inspect::status_label(&dep.status));
                    out.append("]");
                },
                None => out.append("<not in this checkpoint>"),
            }
            out.append("\n");
            proof {
                let ids = task.depends_on@.take(i as int + 1);
                assert(ids.drop_last() =~= task.depends_on@.take(i as int));
                assert(ids.last() == dep_id);
                assert(out@ =~= f + dependency_lines(registry.task_seq(), ids));
            }
            i = i + 1;
        }
        proof {
            assert(task.depends_on@.take(i as int) =~= task.depends_on@);
        }
    }
    proof {
        let tail = if task.depends_on@.len() == 0 {
            show_line("depends on"@, dash())
        } else {
            "depends on\n"@ + dependency_lines(registry.task_seq(), task.depends_on@)
        };
        assert(out@ =~= e + tail);
    }
    trim_end(out.as_str())
}

} // verus!
