//! Trace-to-trace lineage: which trace's output another trace consumed.

use vstd::prelude::*;
use crate::duration::{self, Duration};
use crate::step::Step;
use crate::trace::{Trace, TraceRef};

verus! {

/// One trace's entry in a [`TraceGraph`]: identity, a label (usually the
/// producing agent's name) and the wall time the trace took.
#[derive(Debug, Clone, PartialEq)]
pub struct TraceNode {
    pub trace_ref: TraceRef,
    /// Empty for nodes created implicitly by [`TraceGraph::record_edge`].
    pub label: String,
    /// Total wall time, the weight `critical_path` ranks paths by.
    pub duration: Option<Duration>,
}

/// The summed recorded durations of `steps`, in nanoseconds; untimed steps
/// contribute zero.
pub open spec fn summed_nanos(steps: Seq<Step>) -> nat
    decreases steps.len(),
{
    if steps.len() == 0 {
        0
    } else {
        summed_nanos(steps.drop_last()) + crate::trace::duration_nanos(steps.last())
    }
}

impl TraceNode {
    /// A node for `trace_ref`, labelled but not yet timed.
    pub fn new(trace_ref: TraceRef, label: &str) -> (n: TraceNode)
        ensures
            n.trace_ref == trace_ref,
            n.label@ == label@,
            n.duration is None,
    {
        TraceNode { trace_ref, label: label.to_owned(), duration: None }
    }

    /// Builder: record how long the trace took.
    pub fn with_duration(self, duration: Duration) -> (n: TraceNode)
        ensures
            n == (TraceNode { duration: Some(duration), ..self }),
    {
        TraceNode { duration: Some(duration), ..self }
    }

    /// A node for `trace`, timed by summing its steps' recorded durations
    /// (untimed steps contribute zero). The sum must fit in a `Duration`.
    pub fn from_trace<T>(trace: &Trace<T>, label: &str) -> (n: TraceNode)
        requires
            summed_nanos(trace.chain()) <= duration::max_nanos(),
        ensures
            n.trace_ref == TraceRef(trace.ident()),
            n.label@ == label@,
            n.duration matches Some(d) && d@ == summed_nanos(trace.chain()),
    {
        let steps = trace.causal_chain();
        let mut total = Duration::zero();
        let mut i: usize = 0;
        while i < steps.len()
            invariant
                steps@ == trace.chain(),
                i <= steps@.len(),
                total@ == summed_nanos(steps@.take(i as int)),
                summed_nanos(steps@) <= duration::max_nanos(),
            decreases steps@.len() - i,
        {
            proof {
                assert(steps@.take(i as int + 1).drop_last() =~= steps@.take(i as int));
                lemma_summed_prefix_bound(steps@, i as int + 1);
            }
            if let Some(d) = steps[i].duration {
                match total.checked_add(d) {
                    Some(t) => {
                        total = t;
                    },
                    None => {},
                }
            }
            i = i + 1;
        }
        proof {
            assert(steps@.take(i as int) =~= steps@);
        }
        TraceNode::new(trace.trace_ref(), label).with_duration(total)
    }
}

/// A prefix never sums to more than the whole.
proof fn lemma_summed_prefix_bound(steps: Seq<Step>, k: int)
    requires
        0 <= k <= steps.len(),
    ensures
        summed_nanos(steps.take(k)) <= summed_nanos(steps),
    decreases steps.len() - k,
{
    if k < steps.len() {
        lemma_summed_prefix_bound(steps, k + 1);
        assert(steps.take(k + 1).drop_last() =~= steps.take(k));
    } else {
        assert(steps.take(k) =~= steps);
    }
}

/// True if some node in `nodes` is for `r`.
pub open spec fn has_ref(nodes: Seq<TraceNode>, r: TraceRef) -> bool {
    exists|i: int| 0 <= i < nodes.len() && (#[trigger] nodes[i]).trace_ref == r
}

/// The position of the node for `r` (meaningful when `has_ref`).
pub open spec fn ref_index(nodes: Seq<TraceNode>, r: TraceRef) -> int {
    choose|i: int| 0 <= i < nodes.len() && (#[trigger] nodes[i]).trace_ref == r
}

/// No two nodes are for the same trace.
pub open spec fn refs_distinct(nodes: Seq<TraceNode>) -> bool {
    forall|i: int, j: int|
        0 <= i < j < nodes.len() ==> (#[trigger] nodes[i]).trace_ref != (#[trigger] nodes[j]).trace_ref
}

/// `a -> b` is a recorded edge when walking forward (producer to
/// consumer), or `b -> a` is one when walking backward.
pub open spec fn steps_to(edges: Seq<(TraceRef, TraceRef)>, forward: bool, a: TraceRef, b: TraceRef) -> bool {
    if forward {
        edges.contains((a, b))
    } else {
        edges.contains((b, a))
    }
}

/// `p` is a walk along recorded edges in the given direction.
pub open spec fn is_walk(edges: Seq<(TraceRef, TraceRef)>, forward: bool, p: Seq<TraceRef>) -> bool {
    &&& p.len() >= 1
    &&& forall|i: int| 0 <= i < p.len() - 1 ==> steps_to(edges, forward, #[trigger] p[i], p[i + 1])
}

/// Some walk leads from `a` to `b`.
pub open spec fn reaches(edges: Seq<(TraceRef, TraceRef)>, forward: bool, a: TraceRef, b: TraceRef) -> bool {
    exists|p: Seq<TraceRef>| #[trigger] is_walk(edges, forward, p) && p[0] == a && p.last() == b
}

/// The trace each node is for, in order.
pub open spec fn refs_of(nodes: Seq<TraceNode>) -> Seq<TraceRef> {
    nodes.map_values(|n: TraceNode| n.trace_ref)
}

/// `out` is what a reachability query from `from` answers: each trace
/// reachable from `from` (other than `from` itself) exactly once, as the
/// node recorded for it.
pub open spec fn is_reach_result(
    nodes: Seq<TraceNode>,
    edges: Seq<(TraceRef, TraceRef)>,
    forward: bool,
    from: TraceRef,
    out: Seq<TraceNode>,
) -> bool {
    &&& refs_of(out).no_duplicates()
    &&& forall|x: TraceRef|
        #![trigger refs_of(out).contains(x)]
        #![trigger reaches(edges, forward, from, x)]
        refs_of(out).contains(x) <==> (x != from && reaches(edges, forward, from, x))
    &&& forall|i: int|
        0 <= i < out.len() ==> has_ref(nodes, (#[trigger] out[i]).trace_ref) && out[i]
            == nodes[ref_index(nodes, out[i].trace_ref)]
}

/// Every recorded step out of a trace listed in `seen` leads to a trace
/// listed in `seen`.
pub open spec fn closed_under(edges: Seq<(TraceRef, TraceRef)>, forward: bool, seen: Seq<TraceRef>) -> bool {
    forall|k: int, y: TraceRef|
        0 <= k < seen.len() && #[trigger] steps_to(edges, forward, seen[k], y) ==> seen.contains(y)
}

/// A walk that starts inside a closed set never leaves it.
proof fn lemma_walk_stays(
    edges: Seq<(TraceRef, TraceRef)>,
    forward: bool,
    seen: Seq<TraceRef>,
    p: Seq<TraceRef>,
    i: int,
)
    requires
        closed_under(edges, forward, seen),
        is_walk(edges, forward, p),
        seen.contains(p[0]),
        0 <= i < p.len(),
    ensures
        seen.contains(p[i]),
    decreases i,
{
    if i > 0 {
        lemma_walk_stays(edges, forward, seen, p, i - 1);
        let k = choose|k: int| 0 <= k < seen.len() && seen[k] == p[i - 1];
        assert(steps_to(edges, forward, seen[k], p[i]));
    }
}

/// Distinct traces that all have nodes are no more numerous than the nodes.
proof fn lemma_distinct_refs_bounded(seen: Seq<TraceRef>, nodes: Seq<TraceNode>)
    requires
        seen.no_duplicates(),
        forall|k: int| 0 <= k < seen.len() ==> has_ref(nodes, #[trigger] seen[k]),
    ensures
        seen.len() <= nodes.len(),
{
    let all = refs_of(nodes);
    assert forall|x: TraceRef| seen.to_set().contains(x) implies all.to_set().contains(x) by {
        let k = choose|k: int| 0 <= k < seen.len() && seen[k] == x;
        assert(has_ref(nodes, seen[k]));
        let j = choose|j: int| 0 <= j < nodes.len() && (#[trigger] nodes[j]).trace_ref == seen[k];
        assert(all[j] == x);
    }
    seen.unique_seq_to_set();
    all.lemma_cardinality_of_set();
    vstd::set_lib::lemma_len_subset(seen.to_set(), all.to_set());
}

/// Some walk of at most `k` steps leads from `a` to `b`.
pub open spec fn within(edges: Seq<(TraceRef, TraceRef)>, forward: bool, a: TraceRef, b: TraceRef, k: nat) -> bool {
    exists|p: Seq<TraceRef>| #[trigger] is_walk(edges, forward, p) && p[0] == a && p.last() == b && p.len() <= k + 1
}

/// `refs` lists traces nearest `from` first: whenever a later one is within
/// `k` steps of `from`, so is every earlier one.
pub open spec fn nearest_first(edges: Seq<(TraceRef, TraceRef)>, forward: bool, from: TraceRef, refs: Seq<TraceRef>) -> bool {
    forall|i: int, j: int, k: nat|
        #![trigger refs[i], within(edges, forward, from, refs[j], k)]
        0 <= i < j < refs.len() && within(edges, forward, from, refs[j], k) ==> within(edges, forward, from, refs[i], k)
}

/// `j` is the first position in `l` holding a trace with a step to `l[k]`.
pub open spec fn first_reached_from(
    edges: Seq<(TraceRef, TraceRef)>,
    forward: bool,
    l: Seq<TraceRef>,
    k: int,
    j: int,
) -> bool {
    &&& 0 <= j < k < l.len()
    &&& steps_to(edges, forward, l[j], l[k])
    &&& forall|j2: int| 0 <= j2 < j ==> !steps_to(edges, forward, #[trigger] l[j2], l[k])
}

/// `e` is the position of the recorded edge for a step from `a` to `b`.
pub open spec fn step_edge(edges: Seq<(TraceRef, TraceRef)>, forward: bool, a: TraceRef, b: TraceRef, e: int) -> bool {
    0 <= e < edges.len() && edges[e] == (if forward {
        (a, b)
    } else {
        (b, a)
    })
}

/// `l[k]` is one recorded step from a trace listed before it.
pub open spec fn reached_by_step(edges: Seq<(TraceRef, TraceRef)>, forward: bool, l: Seq<TraceRef>, k: int) -> bool {
    exists|j: int, e: int|
        #[trigger] first_reached_from(edges, forward, l, k, j) && #[trigger] step_edge(edges, forward, l[j], l[k], e)
}

/// `l` lists traces in the order a breadth-first search from `l[0]` finds
/// them: each comes after the first listed trace it is one step from, and
/// traces are ordered by that trace's position, then, from one trace, by
/// the position of the recorded edge.
pub open spec fn discovery_order(edges: Seq<(TraceRef, TraceRef)>, forward: bool, l: Seq<TraceRef>) -> bool {
    &&& forall|k: int| 1 <= k < l.len() ==> #[trigger] reached_by_step(edges, forward, l, k)
    &&& forall|k1: int, k2: int, j1: int, e1: int, j2: int, e2: int|
        1 <= k1 < k2 < l.len() && #[trigger] first_reached_from(edges, forward, l, k1, j1) && #[trigger] step_edge(
            edges,
            forward,
            l[j1],
            l[k1],
            e1,
        ) && #[trigger] first_reached_from(edges, forward, l, k2, j2) && #[trigger] step_edge(
            edges,
            forward,
            l[j2],
            l[k2],
            e2,
        ) ==> j1 < j2 || (j1 == j2 && e1 < e2)
}

/// The first position a trace is reached from is unique.
proof fn lemma_first_reached_unique(
    edges: Seq<(TraceRef, TraceRef)>,
    forward: bool,
    l: Seq<TraceRef>,
    k: int,
    j1: int,
    j2: int,
)
    requires
        first_reached_from(edges, forward, l, k, j1),
        first_reached_from(edges, forward, l, k, j2),
    ensures
        j1 == j2,
{
    if j1 < j2 {
        assert(!steps_to(edges, forward, l[j1], l[k]));
    } else if j2 < j1 {
        assert(!steps_to(edges, forward, l[j2], l[k]));
    }
}

/// Every trace is within no steps of itself.
proof fn lemma_within_start(edges: Seq<(TraceRef, TraceRef)>, forward: bool, a: TraceRef)
    ensures
        within(edges, forward, a, a, 0),
{
    let p = seq![a];
    assert(is_walk(edges, forward, p));
}

/// Only `a` itself is within no steps of `a`.
proof fn lemma_within_zero(edges: Seq<(TraceRef, TraceRef)>, forward: bool, a: TraceRef, x: TraceRef)
    requires
        within(edges, forward, a, x, 0),
    ensures
        x == a,
{
    let p = choose|p: Seq<TraceRef>| #[trigger] is_walk(edges, forward, p) && p[0] == a && p.last() == x && p.len() <= 1;
}

/// One more step reaches one step further.
proof fn lemma_within_extend(
    edges: Seq<(TraceRef, TraceRef)>,
    forward: bool,
    a: TraceRef,
    z: TraceRef,
    y: TraceRef,
    k: nat,
)
    requires
        within(edges, forward, a, z, k),
        steps_to(edges, forward, z, y),
    ensures
        within(edges, forward, a, y, k + 1),
{
    let p = choose|p: Seq<TraceRef>| #[trigger] is_walk(edges, forward, p) && p[0] == a && p.last() == z && p.len() <= k + 1;
    let w = p.push(y);
    assert forall|i: int| 0 <= i < w.len() - 1 implies steps_to(edges, forward, #[trigger] w[i], w[i + 1]) by {
        if i < p.len() - 1 {
            assert(w[i] == p[i] && w[i + 1] == p[i + 1]);
        }
    }
    assert(is_walk(edges, forward, w));
}

/// A walk within `k1` steps is within any larger bound.
proof fn lemma_within_more(
    edges: Seq<(TraceRef, TraceRef)>,
    forward: bool,
    a: TraceRef,
    x: TraceRef,
    k1: nat,
    k2: nat,
)
    requires
        within(edges, forward, a, x, k1),
        k1 <= k2,
    ensures
        within(edges, forward, a, x, k2),
{
    let p = choose|p: Seq<TraceRef>| #[trigger] is_walk(edges, forward, p) && p[0] == a && p.last() == x && p.len() <= k1 + 1;
    assert(is_walk(edges, forward, p));
}

/// A trace within `k + 1` steps is within `k`, or one step past a trace
/// within `k` (returned).
proof fn lemma_within_split(edges: Seq<(TraceRef, TraceRef)>, forward: bool, a: TraceRef, x: TraceRef, k: nat) -> (z: Option<TraceRef>)
    requires
        within(edges, forward, a, x, k + 1),
    ensures
        match z {
            None => within(edges, forward, a, x, k),
            Some(z) => within(edges, forward, a, z, k) && steps_to(edges, forward, z, x),
        },
{
    let p = choose|p: Seq<TraceRef>| #[trigger] is_walk(edges, forward, p) && p[0] == a && p.last() == x && p.len() <= k + 2;
    if p.len() <= k + 1 {
        None
    } else {
        let q = p.drop_last();
        assert forall|i: int| 0 <= i < q.len() - 1 implies steps_to(edges, forward, #[trigger] q[i], q[i + 1]) by {
            assert(q[i] == p[i] && q[i + 1] == p[i + 1]);
        }
        assert(is_walk(edges, forward, q));
        assert(q[0] == a);
        assert(steps_to(edges, forward, p[p.len() - 2], p[p.len() - 1]));
        Some(q.last())
    }
}

/// Once every trace at the level of the entry being expanded is listed, and
/// every entry up to it has had its steps listed, every trace at the next
/// entry's level is listed too.
proof fn lemma_frontier_advance(
    edges: Seq<(TraceRef, TraceRef)>,
    forward: bool,
    from: TraceRef,
    order: Seq<TraceRef>,
    lvl: Seq<nat>,
    head: int,
)
    requires
        0 <= head,
        head + 1 < order.len(),
        lvl.len() == order.len(),
        forall|i: int, k: nat|
            0 <= i < order.len() && #[trigger] within(edges, forward, from, order[i], k) ==> lvl[i] <= k,
        forall|i: int, j: int| 0 <= i < j < lvl.len() ==> lvl[i] <= lvl[j],
        lvl[order.len() - 1] <= lvl[head] + 1,
        forall|x: TraceRef, k: nat| #[trigger] within(edges, forward, from, x, k) && k <= lvl[head] ==> order.contains(x),
        forall|k: int, y: TraceRef| 0 <= k < head + 1 && #[trigger] steps_to(edges, forward, order[k], y) ==> order.contains(y),
    ensures
        forall|x: TraceRef, k: nat| #[trigger] within(edges, forward, from, x, k) && k <= lvl[head + 1] ==> order.contains(x),
{
    assert(lvl[head + 1] <= lvl[order.len() - 1]);
    assert forall|x: TraceRef, k: nat| #[trigger] within(edges, forward, from, x, k) && k <= lvl[head + 1] implies order.contains(x) by {
        if k > lvl[head] {
            let l = lvl[head];
            lemma_within_more(edges, forward, from, x, k, l + 1);
            let z = lemma_within_split(edges, forward, from, x, l);
            match z {
                None => {},
                Some(z) => {
                    assert(order.contains(z));
                    let i = choose|i: int| 0 <= i < order.len() && order[i] == z;
                    assert(lvl[i] <= l);
                    if i > head {
                        assert(lvl[head + 1] <= lvl[i]);
                    }
                    assert(steps_to(edges, forward, order[i], x));
                },
            }
        }
    }
}

/// True if `v` lists `r`.
fn lists(v: &Vec<TraceRef>, r: TraceRef) -> (b: bool)
    ensures
        b == v@.contains(r),
{
    let mut i: usize = 0;
    while i < v.len()
        invariant
            i <= v@.len(),
            forall|j: int| 0 <= j < i ==> v@[j] != r,
        decreases v@.len() - i,
    {
        if v[i].0 == r.0 {
            proof {
                assert(v@[i as int] == r);
            }
            return true;
        }
        i = i + 1;
    }
    false
}

/// The node at position `a` has a recorded edge to the node at position `b`.
pub open spec fn idx_edge(nodes: Seq<TraceNode>, edges: Seq<(TraceRef, TraceRef)>, a: int, b: int) -> bool {
    edges.contains((nodes[a].trace_ref, nodes[b].trace_ref))
}

/// A walk of at least one edge leads from `a` to `b`.
pub open spec fn leads_to(edges: Seq<(TraceRef, TraceRef)>, a: TraceRef, b: TraceRef) -> bool {
    exists|p: Seq<TraceRef>| #[trigger] is_walk(edges, true, p) && p.len() >= 2 && p[0] == a && p.last() == b
}

/// No walk of at least one edge returns to where it started.
pub open spec fn acyclic(edges: Seq<(TraceRef, TraceRef)>) -> bool {
    forall|p: Seq<TraceRef>| #[trigger] is_walk(edges, true, p) && p.len() >= 2 ==> p[0] != p.last()
}

/// One edge is a walk.
proof fn lemma_edge_leads(edges: Seq<(TraceRef, TraceRef)>, a: TraceRef, b: TraceRef)
    requires
        edges.contains((a, b)),
    ensures
        leads_to(edges, a, b),
{
    let w = seq![a, b];
    assert(is_walk(edges, true, w));
}

/// A walk followed by an edge is a walk.
proof fn lemma_leads_extend(edges: Seq<(TraceRef, TraceRef)>, a: TraceRef, b: TraceRef, c: TraceRef)
    requires
        leads_to(edges, a, b),
        edges.contains((b, c)),
    ensures
        leads_to(edges, a, c),
{
    let p = choose|p: Seq<TraceRef>| #[trigger] is_walk(edges, true, p) && p.len() >= 2 && p[0] == a && p.last() == b;
    let w = p.push(c);
    assert forall|i: int| 0 <= i < w.len() - 1 implies steps_to(edges, true, #[trigger] w[i], w[i + 1]) by {
        if i < p.len() - 1 {
            assert(w[i] == p[i] && w[i + 1] == p[i + 1]);
        }
    }
    assert(is_walk(edges, true, w));
}

/// In an acyclic graph, a walk from `a` to `b` rules out an edge back.
proof fn lemma_no_back_edge(edges: Seq<(TraceRef, TraceRef)>, a: TraceRef, b: TraceRef)
    requires
        acyclic(edges),
        leads_to(edges, a, b),
    ensures
        !edges.contains((b, a)),
{
    if edges.contains((b, a)) {
        lemma_leads_extend(edges, a, b, a);
        let p = choose|p: Seq<TraceRef>| #[trigger] is_walk(edges, true, p) && p.len() >= 2 && p[0] == a && p.last() == a;
        assert(p[0] != p.last());
    }
}

/// The duration recorded for the node of `r`, in nanoseconds (zero if
/// untimed or absent).
pub open spec fn dur_of(nodes: Seq<TraceNode>, r: TraceRef) -> nat {
    if has_ref(nodes, r) {
        match nodes[ref_index(nodes, r)].duration {
            Some(d) => d@,
            None => 0,
        }
    } else {
        0
    }
}

/// The summed durations along `w`, saturating at the longest `Duration`
/// at each step as `critical_path` sums them.
pub open spec fn walk_nanos(nodes: Seq<TraceNode>, w: Seq<TraceRef>) -> nat
    decreases w.len(),
{
    if w.len() == 0 {
        0
    } else {
        duration::min_nat(dur_of(nodes, w[0]) + walk_nanos(nodes, w.drop_first()), duration::max_nanos())
    }
}

/// The summed durations along `w`.
pub open spec fn walk_total(nodes: Seq<TraceNode>, w: Seq<TraceRef>) -> nat
    decreases w.len(),
{
    if w.len() == 0 {
        0
    } else {
        dur_of(nodes, w[0]) + walk_total(nodes, w.drop_first())
    }
}

/// No walk's summed durations exceed the longest `Duration`.
pub open spec fn paths_fit(nodes: Seq<TraceNode>, edges: Seq<(TraceRef, TraceRef)>) -> bool {
    forall|w: Seq<TraceRef>| #[trigger] is_walk(edges, true, w) ==> walk_total(nodes, w) <= duration::max_nanos()
}

/// `(d1, h1)` ranks strictly above `(d2, h2)`: slower, or as slow with
/// more hops.
pub open spec fn rank_above(d1: int, h1: int, d2: int, h2: int) -> bool {
    d1 > d2 || (d1 == d2 && h1 > h2)
}

/// A walk's suffix is a walk.
proof fn lemma_walk_suffix(edges: Seq<(TraceRef, TraceRef)>, w: Seq<TraceRef>)
    requires
        is_walk(edges, true, w),
        w.len() >= 2,
    ensures
        is_walk(edges, true, w.drop_first()),
{
    let t = w.drop_first();
    assert forall|i: int| 0 <= i < t.len() - 1 implies steps_to(edges, true, #[trigger] t[i], t[i + 1]) by {
        assert(t[i] == w[i + 1] && t[i + 1] == w[i + 2]);
    }
}

/// Without saturation, the saturating and plain sums of a walk agree.
proof fn lemma_walk_unsaturated(nodes: Seq<TraceNode>, edges: Seq<(TraceRef, TraceRef)>, w: Seq<TraceRef>)
    requires
        paths_fit(nodes, edges),
        is_walk(edges, true, w),
    ensures
        walk_nanos(nodes, w) == walk_total(nodes, w),
    decreases w.len(),
{
    assert(walk_total(nodes, w) <= duration::max_nanos());
    if w.len() >= 2 {
        lemma_walk_suffix(edges, w);
        lemma_walk_unsaturated(nodes, edges, w.drop_first());
    } else if w.len() == 1 {
        assert(w.drop_first().len() == 0);
        assert(walk_nanos(nodes, w.drop_first()) == 0);
        assert(walk_total(nodes, w.drop_first()) == 0);
    }
}

/// The entry at `j` of the search stack was pushed as a successor of the
/// nearest expanded entry below it (or is the starting entry).
pub open spec fn has_parent(
    nodes: Seq<TraceNode>,
    edges: Seq<(TraceRef, TraceRef)>,
    st: Seq<(usize, bool)>,
    j: int,
    start: usize,
) -> bool {
    (j == 0 && st[0].0 == start) || exists|i: int|
        0 <= i < j && st[i].1 && #[trigger] idx_edge(nodes, edges, st[i].0 as int, st[j].0 as int)
            && forall|m: int| i < m < j ==> !(#[trigger] st[m]).1
}

/// The search stack's shape: expanded entries are exactly the nodes in
/// progress, each once, each reachable from the expanded entries below it;
/// every other entry sits above the entry that pushed it.
pub open spec fn stack_shape(
    nodes: Seq<TraceNode>,
    edges: Seq<(TraceRef, TraceRef)>,
    st: Seq<(usize, bool)>,
    inp: Seq<bool>,
    start: usize,
) -> bool {
    &&& forall|i: int| 0 <= i < st.len() && (#[trigger] st[i]).1 ==> inp[st[i].0 as int]
    &&& forall|i1: int, i2: int|
        0 <= i1 < i2 < st.len() && (#[trigger] st[i1]).1 && (#[trigger] st[i2]).1 ==> st[i1].0
            != st[i2].0 && leads_to(edges, nodes[st[i1].0 as int].trace_ref, nodes[st[i2].0 as int].trace_ref)
    &&& forall|j: int| 0 <= j < st.len() && !(#[trigger] st[j]).1 ==> has_parent(nodes, edges, st, j, start)
}

/// Every successor of an expanded entry below `top` is memoized or has an
/// entry above it.
pub open spec fn covered_below(
    nodes: Seq<TraceNode>,
    edges: Seq<(TraceRef, TraceRef)>,
    st: Seq<(usize, bool)>,
    best: Seq<Option<PathRank>>,
    top: int,
) -> bool {
    forall|i: int, y: int|
        0 <= i < top && i < st.len() && (#[trigger] st[i]).1 && 0 <= y < nodes.len()
            && #[trigger] idx_edge(nodes, edges, st[i].0 as int, y) ==> best[y] is Some || exists|m: int|
            i < m < st.len() && (#[trigger] st[m]).0 as int == y
}

/// Popping an entry keeps the stack's shape.
proof fn lemma_pop_shape(
    nodes: Seq<TraceNode>,
    edges: Seq<(TraceRef, TraceRef)>,
    st: Seq<(usize, bool)>,
    inp: Seq<bool>,
    start: usize,
)
    requires
        stack_shape(nodes, edges, st, inp, start),
        st.len() > 0,
    ensures
        stack_shape(nodes, edges, st.drop_last(), inp, start),
{
    let t = st.drop_last();
    assert forall|j: int| 0 <= j < t.len() && !(#[trigger] t[j]).1 implies has_parent(nodes, edges, t, j, start) by {
        assert(t[j] == st[j]);
        assert(has_parent(nodes, edges, st, j, start));
        if !(j == 0 && st[0].0 == start) {
            let i = choose|i: int|
                0 <= i < j && st[i].1 && #[trigger] idx_edge(nodes, edges, st[i].0 as int, st[j].0 as int)
                    && forall|m: int| i < m < j ==> !(#[trigger] st[m]).1;
            assert(t[i] == st[i]);
            assert forall|m: int| i < m < j implies !(#[trigger] t[m]).1 by {
                assert(t[m] == st[m]);
            }
        }
    }
    assert forall|i1: int, i2: int|
        0 <= i1 < i2 < t.len() && (#[trigger] t[i1]).1 && (#[trigger] t[i2]).1 implies t[i1].0 != t[i2].0
            && leads_to(edges, nodes[t[i1].0 as int].trace_ref, nodes[t[i2].0 as int].trace_ref) by {
        assert(t[i1] == st[i1] && t[i2] == st[i2]);
    }
    assert forall|i: int| 0 <= i < t.len() && (#[trigger] t[i]).1 implies inp[t[i].0 as int] by {
        assert(t[i] == st[i]);
    }
}

/// Popping an entry whose node is memoized, or is in progress elsewhere on
/// the stack, keeps every successor covered in an acyclic graph.
proof fn lemma_pop_covered(
    nodes: Seq<TraceNode>,
    edges: Seq<(TraceRef, TraceRef)>,
    st: Seq<(usize, bool)>,
    inp: Seq<bool>,
    best: Seq<Option<PathRank>>,
    start: usize,
)
    requires
        acyclic(edges),
        forall|i: int| 0 <= i < edges.len() ==> (#[trigger] edges[i]).0 != edges[i].1,
        stack_shape(nodes, edges, st, inp, start),
        covered_below(nodes, edges, st, best, st.len() as int),
        st.len() > 0,
        best.len() == nodes.len(),
        inp.len() == nodes.len(),
        forall|k: int| 0 <= k < st.len() ==> (#[trigger] st[k]).0 < nodes.len(),
        forall|k: int| 0 <= k < nodes.len() && #[trigger] inp[k] ==> st.contains((k as usize, true)),
        ({
            let x = st.last();
            best[x.0 as int] is Some || (inp[x.0 as int] && !x.1)
        }),
    ensures
        covered_below(nodes, edges, st.drop_last(), best, st.len() - 1),
{
    let t = st.drop_last();
    let x = st.last();
    assert forall|i: int, y: int|
        0 <= i < st.len() - 1 && i < t.len() && (#[trigger] t[i]).1 && 0 <= y < nodes.len()
            && #[trigger] idx_edge(nodes, edges, t[i].0 as int, y) implies best[y] is Some || exists|m: int|
            i < m < t.len() && (#[trigger] t[m]).0 as int == y by {
        assert(t[i] == st[i]);
        if !(best[y] is Some) {
            let m = choose|m: int| i < m < st.len() && (#[trigger] st[m]).0 as int == y;
            if m < st.len() - 1 {
                assert(t[m] == st[m]);
            } else {
                assert(y == x.0 as int);
                assert(inp[y] && !x.1);
                assert(st.contains((y as usize, true)));
                let m2 = choose|m2: int| 0 <= m2 < st.len() && st[m2] == (y as usize, true);
                assert(m2 != st.len() - 1);
                if m2 > i {
                    assert(t[m2] == st[m2]);
                } else if m2 == i {
                    let e = (nodes[y].trace_ref, nodes[y].trace_ref);
                    assert(edges.contains(e));
                    let q = choose|q: int| 0 <= q < edges.len() && edges[q] == e;
                    assert(edges[q].0 != edges[q].1);
                } else {
                    assert(st[m2].1 && st[i].1);
                    assert(leads_to(edges, nodes[st[m2].0 as int].trace_ref, nodes[st[i].0 as int].trace_ref));
                    lemma_no_back_edge(edges, nodes[y].trace_ref, nodes[st[i].0 as int].trace_ref);
                }
            }
        }
    }
}

/// Marking the top entry expanded keeps the stack's shape.
proof fn lemma_expand_shape(
    nodes: Seq<TraceNode>,
    edges: Seq<(TraceRef, TraceRef)>,
    st: Seq<(usize, bool)>,
    inp: Seq<bool>,
    start: usize,
)
    requires
        stack_shape(nodes, edges, st, inp, start),
        st.len() > 0,
        !st.last().1,
        st.last().0 < inp.len(),
        !inp[st.last().0 as int],
        forall|k: int| 0 <= k < st.len() ==> (#[trigger] st[k]).0 < inp.len(),
    ensures
        stack_shape(
            nodes,
            edges,
            st.drop_last().push((st.last().0, true)),
            inp.update(st.last().0 as int, true),
            start,
        ),
{
    let c = st.last().0;
    let p = st.len() - 1;
    let t = st.drop_last().push((c, true));
    let ni = inp.update(c as int, true);
    assert(t[p] == (c, true));
    assert forall|i: int| 0 <= i < t.len() && (#[trigger] t[i]).1 implies ni[t[i].0 as int] by {
        if i < p {
            assert(t[i] == st[i]);
        }
    }
    assert(has_parent(nodes, edges, st, p, start));
    assert forall|i1: int, i2: int|
        0 <= i1 < i2 < t.len() && (#[trigger] t[i1]).1 && (#[trigger] t[i2]).1 implies t[i1].0 != t[i2].0
            && leads_to(edges, nodes[t[i1].0 as int].trace_ref, nodes[t[i2].0 as int].trace_ref) by {
        assert(t[i1] == st[i1]);
        if i2 < p {
            assert(t[i2] == st[i2]);
        } else {
            assert(inp[st[i1].0 as int]);
            let i = choose|i: int|
                0 <= i < p && st[i].1 && #[trigger] idx_edge(nodes, edges, st[i].0 as int, st[p].0 as int)
                    && forall|m: int| i < m < p ==> !(#[trigger] st[m]).1;
            if i1 > i {
                assert(!st[i1].1);
            }
            lemma_edge_leads(edges, nodes[st[i].0 as int].trace_ref, nodes[c as int].trace_ref);
            if i1 < i {
                lemma_leads_extend(
                    edges,
                    nodes[st[i1].0 as int].trace_ref,
                    nodes[st[i].0 as int].trace_ref,
                    nodes[c as int].trace_ref,
                );
            }
        }
    }
    assert forall|j: int| 0 <= j < t.len() && !(#[trigger] t[j]).1 implies has_parent(nodes, edges, t, j, start) by {
        assert(t[j] == st[j]);
        assert(has_parent(nodes, edges, st, j, start));
        if !(j == 0 && st[0].0 == start) {
            let i = choose|i: int|
                0 <= i < j && st[i].1 && #[trigger] idx_edge(nodes, edges, st[i].0 as int, st[j].0 as int)
                    && forall|m: int| i < m < j ==> !(#[trigger] st[m]).1;
            assert(t[i] == st[i]);
            assert forall|m: int| i < m < j implies !(#[trigger] t[m]).1 by {
                assert(t[m] == st[m]);
            }
        } else {
            assert(t[0] == st[0]);
        }
    }
}

/// Pushing a successor of the expanded entry at `p`, with nothing expanded
/// above `p`, keeps the stack's shape.
proof fn lemma_push_child(
    nodes: Seq<TraceNode>,
    edges: Seq<(TraceRef, TraceRef)>,
    st: Seq<(usize, bool)>,
    inp: Seq<bool>,
    start: usize,
    p: int,
    y: usize,
)
    requires
        stack_shape(nodes, edges, st, inp, start),
        0 <= p < st.len(),
        st[p].1,
        forall|m: int| p < m < st.len() ==> !(#[trigger] st[m]).1,
        idx_edge(nodes, edges, st[p].0 as int, y as int),
    ensures
        stack_shape(nodes, edges, st.push((y, false)), inp, start),
{
    let t = st.push((y, false));
    assert forall|i: int| 0 <= i < t.len() && (#[trigger] t[i]).1 implies inp[t[i].0 as int] by {
        assert(t[i] == st[i]);
    }
    assert forall|i1: int, i2: int|
        0 <= i1 < i2 < t.len() && (#[trigger] t[i1]).1 && (#[trigger] t[i2]).1 implies t[i1].0 != t[i2].0
            && leads_to(edges, nodes[t[i1].0 as int].trace_ref, nodes[t[i2].0 as int].trace_ref) by {
        assert(t[i1] == st[i1] && t[i2] == st[i2]);
    }
    assert forall|j: int| 0 <= j < t.len() && !(#[trigger] t[j]).1 implies has_parent(nodes, edges, t, j, start) by {
        if j < st.len() {
            assert(t[j] == st[j]);
            assert(has_parent(nodes, edges, st, j, start));
            if !(j == 0 && st[0].0 == start) {
                let i = choose|i: int|
                    0 <= i < j && st[i].1 && #[trigger] idx_edge(nodes, edges, st[i].0 as int, st[j].0 as int)
                        && forall|m: int| i < m < j ==> !(#[trigger] st[m]).1;
                assert(t[i] == st[i]);
                assert forall|m: int| i < m < j implies !(#[trigger] t[m]).1 by {
                    assert(t[m] == st[m]);
                }
            } else {
                assert(t[0] == st[0]);
            }
        } else {
            assert(t[p] == st[p]);
            assert(idx_edge(nodes, edges, t[p].0 as int, t[j].0 as int));
            assert forall|m: int| p < m < j implies !(#[trigger] t[m]).1 by {
                assert(t[m] == st[m]);
            }
        }
    }
}

/// Once every successor of the expanded entry at `p` is memoized, in
/// progress or pushed above it, and nothing above `p` is expanded, every
/// successor of every expanded entry is covered in an acyclic graph.
proof fn lemma_expand_covered(
    nodes: Seq<TraceNode>,
    edges: Seq<(TraceRef, TraceRef)>,
    st: Seq<(usize, bool)>,
    inp: Seq<bool>,
    best: Seq<Option<PathRank>>,
    start: usize,
    p: int,
)
    requires
        acyclic(edges),
        forall|i: int| 0 <= i < edges.len() ==> (#[trigger] edges[i]).0 != edges[i].1,
        stack_shape(nodes, edges, st, inp, start),
        covered_below(nodes, edges, st, best, p),
        0 <= p < st.len(),
        st[p].1,
        forall|m: int| p < m < st.len() ==> !(#[trigger] st[m]).1,
        inp.len() == nodes.len(),
        nodes.len() <= usize::MAX,
        forall|k: int| 0 <= k < nodes.len() && #[trigger] inp[k] ==> st.contains((k as usize, true)),
        refs_distinct(nodes),
        st[p].0 < nodes.len(),
        forall|j: int|
            0 <= j < edges.len() && (#[trigger] edges[j]).0 == nodes[st[p].0 as int].trace_ref && has_ref(
                nodes,
                edges[j].1,
            ) ==> {
                let y = ref_index(nodes, edges[j].1);
                best[y] is Some || inp[y] || exists|m: int| p < m < st.len() && (#[trigger] st[m]).0 as int == y
            },
    ensures
        covered_below(nodes, edges, st, best, st.len() as int),
{
    assert forall|y: int|
        0 <= y < nodes.len() && #[trigger] idx_edge(nodes, edges, st[p].0 as int, y) implies best[y] is Some
            || inp[y] || exists|m: int| p < m < st.len() && (#[trigger] st[m]).0 as int == y by {
        let e = (nodes[st[p].0 as int].trace_ref, nodes[y].trace_ref);
        let q = choose|q: int| 0 <= q < edges.len() && edges[q] == e;
        lemma_own_index(nodes, y);
    }
    assert forall|i: int, y: int|
        0 <= i < st.len() && i < st.len() && (#[trigger] st[i]).1 && 0 <= y < nodes.len()
            && #[trigger] idx_edge(nodes, edges, st[i].0 as int, y) implies best[y] is Some || exists|m: int|
            i < m < st.len() && (#[trigger] st[m]).0 as int == y by {
        if i == p && !(best[y] is Some) && !(exists|m: int| p < m < st.len() && (#[trigger] st[m]).0 as int == y) {
            assert(inp[y]);
            let m2 = choose|m2: int| 0 <= m2 < st.len() && st[m2] == (y as usize, true);
            assert(st[m2].0 as int == y);
            let e = (nodes[st[p].0 as int].trace_ref, nodes[y].trace_ref);
            assert(edges.contains(e));
            let q = choose|q: int| 0 <= q < edges.len() && edges[q] == e;
            assert(edges[q].0 != edges[q].1);
            assert(m2 != p);
            assert(m2 < p);
            assert(leads_to(edges, nodes[st[m2].0 as int].trace_ref, nodes[st[p].0 as int].trace_ref));
            lemma_no_back_edge(edges, nodes[y].trace_ref, nodes[st[p].0 as int].trace_ref);
        }
    }
}

/// Replacing the top entry by one for the same node keeps every successor
/// of the entries below it covered.
proof fn lemma_retop_covered(
    nodes: Seq<TraceNode>,
    edges: Seq<(TraceRef, TraceRef)>,
    st: Seq<(usize, bool)>,
    best: Seq<Option<PathRank>>,
    x: (usize, bool),
)
    requires
        covered_below(nodes, edges, st, best, st.len() as int),
        st.len() > 0,
        x.0 == st.last().0,
    ensures
        covered_below(nodes, edges, st.drop_last().push(x), best, st.len() - 1),
{
    let t = st.drop_last().push(x);
    assert forall|i: int, y: int|
        0 <= i < st.len() - 1 && i < t.len() && (#[trigger] t[i]).1 && 0 <= y < nodes.len()
            && #[trigger] idx_edge(nodes, edges, t[i].0 as int, y) implies best[y] is Some || exists|m: int|
            i < m < t.len() && (#[trigger] t[m]).0 as int == y by {
        assert(t[i] == st[i]);
        if !(best[y] is Some) {
            let m = choose|m: int| i < m < st.len() && (#[trigger] st[m]).0 as int == y;
            if m < st.len() - 1 {
                assert(t[m] == st[m]);
            } else {
                assert(t[m].0 == st[m].0);
            }
        }
    }
}

/// With every successor covered, the successors of the expanded entry on
/// top are all memoized.
proof fn lemma_top_successors_done(
    nodes: Seq<TraceNode>,
    edges: Seq<(TraceRef, TraceRef)>,
    st: Seq<(usize, bool)>,
    best: Seq<Option<PathRank>>,
)
    requires
        covered_below(nodes, edges, st, best, st.len() as int),
        st.len() > 0,
        st.last().1,
    ensures
        forall|y: int|
            0 <= y < nodes.len() && #[trigger] idx_edge(nodes, edges, st.last().0 as int, y) ==> best[y] is Some,
{
    assert forall|y: int|
        0 <= y < nodes.len() && #[trigger] idx_edge(nodes, edges, st.last().0 as int, y) implies best[y] is Some by {
        let i = st.len() - 1;
        assert(st[i] == st.last());
        assert(idx_edge(nodes, edges, st[i].0 as int, y));
    }
}

/// Finishing the expanded entry on top (popping it and marking its node no
/// longer in progress) keeps the stack's shape.
proof fn lemma_finish_shape(
    nodes: Seq<TraceNode>,
    edges: Seq<(TraceRef, TraceRef)>,
    st: Seq<(usize, bool)>,
    inp: Seq<bool>,
    start: usize,
)
    requires
        stack_shape(nodes, edges, st, inp, start),
        st.len() > 0,
        st.last().1,
        forall|k: int| 0 <= k < st.len() ==> (#[trigger] st[k]).0 < inp.len(),
    ensures
        stack_shape(nodes, edges, st.drop_last(), inp.update(st.last().0 as int, false), start),
{
    lemma_pop_shape(nodes, edges, st, inp, start);
    let t = st.drop_last();
    let c = st.last().0;
    let top = st.len() - 1;
    assert(st[top] == st.last());
    assert forall|i: int| 0 <= i < t.len() && (#[trigger] t[i]).1 implies inp.update(c as int, false)[t[i].0 as int] by {
        assert(t[i] == st[i]);
        assert(st[i].0 != st[top].0);
    }
}

/// Every successor of an expanded entry below `top` is memoized, in
/// progress, or has an entry above it.
pub open spec fn reached_below(
    nodes: Seq<TraceNode>,
    edges: Seq<(TraceRef, TraceRef)>,
    st: Seq<(usize, bool)>,
    best: Seq<Option<PathRank>>,
    inp: Seq<bool>,
    top: int,
) -> bool {
    forall|i: int, y: int|
        0 <= i < top && i < st.len() && (#[trigger] st[i]).1 && 0 <= y < nodes.len()
            && #[trigger] idx_edge(nodes, edges, st[i].0 as int, y) ==> best[y] is Some || inp[y] || exists|m: int|
            i < m < st.len() && (#[trigger] st[m]).0 as int == y
}

/// Every successor of a memoized node is memoized or still in progress.
pub open spec fn memo_closed(
    nodes: Seq<TraceNode>,
    edges: Seq<(TraceRef, TraceRef)>,
    best: Seq<Option<PathRank>>,
    inp: Seq<bool>,
) -> bool {
    forall|k: int, y: int|
        0 <= k < nodes.len() && 0 <= y < nodes.len() && (#[trigger] best[k]) is Some && #[trigger] idx_edge(
            nodes,
            edges,
            k,
            y,
        ) ==> best[y] is Some || inp[y]
}

/// More memo entries, and in-progress marks that only turn into memo
/// entries, keep successors reached.
proof fn lemma_reached_update(
    nodes: Seq<TraceNode>,
    edges: Seq<(TraceRef, TraceRef)>,
    st: Seq<(usize, bool)>,
    best: Seq<Option<PathRank>>,
    inp: Seq<bool>,
    best2: Seq<Option<PathRank>>,
    inp2: Seq<bool>,
    top: int,
)
    requires
        reached_below(nodes, edges, st, best, inp, top),
        best.len() == nodes.len(),
        forall|k: int| 0 <= k < nodes.len() && (#[trigger] best[k]) is Some ==> best2[k] is Some,
        forall|k: int| 0 <= k < nodes.len() && #[trigger] inp[k] ==> inp2[k] || best2[k] is Some,
    ensures
        reached_below(nodes, edges, st, best2, inp2, top),
{
}

/// Popping an entry whose node is memoized or in progress keeps the
/// successors of the entries below it reached.
proof fn lemma_reached_pop(
    nodes: Seq<TraceNode>,
    edges: Seq<(TraceRef, TraceRef)>,
    st: Seq<(usize, bool)>,
    best: Seq<Option<PathRank>>,
    inp: Seq<bool>,
)
    requires
        reached_below(nodes, edges, st, best, inp, st.len() as int),
        st.len() > 0,
        best[st.last().0 as int] is Some || inp[st.last().0 as int],
    ensures
        reached_below(nodes, edges, st.drop_last(), best, inp, st.len() - 1),
{
    let t = st.drop_last();
    assert forall|i: int, y: int|
        0 <= i < st.len() - 1 && i < t.len() && (#[trigger] t[i]).1 && 0 <= y < nodes.len()
            && #[trigger] idx_edge(nodes, edges, t[i].0 as int, y) implies best[y] is Some || inp[y] || exists|m: int|
            i < m < t.len() && (#[trigger] t[m]).0 as int == y by {
        assert(t[i] == st[i]);
        if !(best[y] is Some || inp[y]) {
            let m = choose|m: int| i < m < st.len() && (#[trigger] st[m]).0 as int == y;
            if m < st.len() - 1 {
                assert(t[m] == st[m]);
            } else {
                assert(st[m] == st.last());
            }
        }
    }
}

/// Replacing the top entry by one for the same node keeps the successors of
/// the entries below it reached.
proof fn lemma_reached_retop(
    nodes: Seq<TraceNode>,
    edges: Seq<(TraceRef, TraceRef)>,
    st: Seq<(usize, bool)>,
    best: Seq<Option<PathRank>>,
    inp: Seq<bool>,
    x: (usize, bool),
)
    requires
        reached_below(nodes, edges, st, best, inp, st.len() as int),
        st.len() > 0,
        x.0 == st.last().0,
    ensures
        reached_below(nodes, edges, st.drop_last().push(x), best, inp, st.len() - 1),
{
    let t = st.drop_last().push(x);
    assert forall|i: int, y: int|
        0 <= i < st.len() - 1 && i < t.len() && (#[trigger] t[i]).1 && 0 <= y < nodes.len()
            && #[trigger] idx_edge(nodes, edges, t[i].0 as int, y) implies best[y] is Some || inp[y] || exists|m: int|
            i < m < t.len() && (#[trigger] t[m]).0 as int == y by {
        assert(t[i] == st[i]);
        if !(best[y] is Some || inp[y]) {
            let m = choose|m: int| i < m < st.len() && (#[trigger] st[m]).0 as int == y;
            if m < st.len() - 1 {
                assert(t[m] == st[m]);
            } else {
                assert(t[m].0 == st[m].0);
            }
        }
    }
}

/// Once every successor of the expanded entry at `p` is memoized, in
/// progress or pushed above it, and nothing above `p` is expanded, every
/// expanded entry's successors are reached.
proof fn lemma_reached_expand(
    nodes: Seq<TraceNode>,
    edges: Seq<(TraceRef, TraceRef)>,
    st: Seq<(usize, bool)>,
    best: Seq<Option<PathRank>>,
    inp: Seq<bool>,
    p: int,
)
    requires
        reached_below(nodes, edges, st, best, inp, p),
        0 <= p < st.len(),
        st[p].0 < nodes.len(),
        refs_distinct(nodes),
        forall|m: int| p < m < st.len() ==> !(#[trigger] st[m]).1,
        forall|j: int|
            0 <= j < edges.len() && (#[trigger] edges[j]).0 == nodes[st[p].0 as int].trace_ref && has_ref(
                nodes,
                edges[j].1,
            ) ==> {
                let y = ref_index(nodes, edges[j].1);
                best[y] is Some || inp[y] || exists|m: int| p < m < st.len() && (#[trigger] st[m]).0 as int == y
            },
    ensures
        reached_below(nodes, edges, st, best, inp, st.len() as int),
{
    assert forall|i: int, y: int|
        0 <= i < st.len() && i < st.len() && (#[trigger] st[i]).1 && 0 <= y < nodes.len()
            && #[trigger] idx_edge(nodes, edges, st[i].0 as int, y) implies best[y] is Some || inp[y] || exists|m: int|
            i < m < st.len() && (#[trigger] st[m]).0 as int == y by {
        if i == p {
            let e = (nodes[st[p].0 as int].trace_ref, nodes[y].trace_ref);
            let q = choose|q: int| 0 <= q < edges.len() && edges[q] == e;
            lemma_own_index(nodes, y);
        }
    }
}

/// The successors of the expanded entry on top are memoized or in progress.
proof fn lemma_reached_top(
    nodes: Seq<TraceNode>,
    edges: Seq<(TraceRef, TraceRef)>,
    st: Seq<(usize, bool)>,
    best: Seq<Option<PathRank>>,
    inp: Seq<bool>,
)
    requires
        reached_below(nodes, edges, st, best, inp, st.len() as int),
        st.len() > 0,
        st.last().1,
    ensures
        forall|y: int|
            0 <= y < nodes.len() && #[trigger] idx_edge(nodes, edges, st.last().0 as int, y) ==> best[y] is Some
                || inp[y],
{
    assert forall|y: int|
        0 <= y < nodes.len() && #[trigger] idx_edge(nodes, edges, st.last().0 as int, y) implies best[y] is Some
            || inp[y] by {
        let i = st.len() - 1;
        assert(st[i] == st.last());
        assert(idx_edge(nodes, edges, st[i].0 as int, y));
    }
}

/// Memoizing `c`, whose successors are memoized or in progress, and taking
/// it out of progress keeps the memo closed, given no edge joins a trace
/// to itself.
proof fn lemma_closed_finish(
    nodes: Seq<TraceNode>,
    edges: Seq<(TraceRef, TraceRef)>,
    best: Seq<Option<PathRank>>,
    inp: Seq<bool>,
    best2: Seq<Option<PathRank>>,
    c: int,
)
    requires
        memo_closed(nodes, edges, best, inp),
        forall|i: int| 0 <= i < edges.len() ==> (#[trigger] edges[i]).0 != edges[i].1,
        0 <= c < nodes.len(),
        best.len() == nodes.len(),
        inp.len() == nodes.len(),
        inp[c],
        best2 == best.update(c, best2[c]),
        best2[c] is Some,
        forall|y: int| 0 <= y < nodes.len() && #[trigger] idx_edge(nodes, edges, c, y) ==> best[y] is Some || inp[y],
    ensures
        memo_closed(nodes, edges, best2, inp.update(c, false)),
{
    let inp2 = inp.update(c, false);
    assert forall|k: int, y: int|
        0 <= k < nodes.len() && 0 <= y < nodes.len() && (#[trigger] best2[k]) is Some && #[trigger] idx_edge(
            nodes,
            edges,
            k,
            y,
        ) implies best2[y] is Some || inp2[y] by {
        if y == c {
        } else {
            assert(best2[y] == best[y] && inp2[y] == inp[y]);
            if k != c {
                assert(best2[k] == best[k]);
            }
        }
    }
}

/// In a closed memo with nothing in progress, every trace a walk from a
/// memoized node reaches is memoized.
proof fn lemma_closed_reaches(
    nodes: Seq<TraceNode>,
    edges: Seq<(TraceRef, TraceRef)>,
    best: Seq<Option<PathRank>>,
    inp: Seq<bool>,
    w: Seq<TraceRef>,
    i: int,
)
    requires
        memo_closed(nodes, edges, best, inp),
        forall|k: int| 0 <= k < nodes.len() ==> !(#[trigger] inp[k]),
        refs_distinct(nodes),
        forall|j: int|
            0 <= j < edges.len() ==> has_ref(nodes, (#[trigger] edges[j]).0) && has_ref(nodes, edges[j].1),
        is_walk(edges, true, w),
        has_ref(nodes, w[0]),
        best[ref_index(nodes, w[0])] is Some,
        0 <= i < w.len(),
    ensures
        has_ref(nodes, w[i]),
        best[ref_index(nodes, w[i])] is Some,
    decreases i,
{
    if i > 0 {
        lemma_closed_reaches(nodes, edges, best, inp, w, i - 1);
        assert(steps_to(edges, true, w[i - 1], w[i]));
        let j = choose|j: int| 0 <= j < edges.len() && edges[j] == (w[i - 1], w[i]);
        assert(has_ref(nodes, edges[j].1));
        let a = ref_index(nodes, w[i - 1]);
        let b = ref_index(nodes, w[i]);
        assert(idx_edge(nodes, edges, a, b));
        assert(!inp[b]);
    }
}

/// Memoizing more entries keeps successors covered.
proof fn lemma_covered_grow(
    nodes: Seq<TraceNode>,
    edges: Seq<(TraceRef, TraceRef)>,
    st: Seq<(usize, bool)>,
    best: Seq<Option<PathRank>>,
    more: Seq<Option<PathRank>>,
    top: int,
)
    requires
        covered_below(nodes, edges, st, best, top),
        more.len() == best.len(),
        forall|k: int| 0 <= k < best.len() && (#[trigger] best[k]) is Some ==> more[k] is Some,
        best.len() == nodes.len(),
    ensures
        covered_below(nodes, edges, st, more, top),
{
}

/// The best path found so far starting at a node: its summed duration, its
/// hop count and the path itself.
pub type PathRank = (Duration, usize, Vec<TraceRef>);

/// The path a memo entry holds (empty when there is none).
pub open spec fn path_of(o: Option<PathRank>) -> Seq<TraceRef> {
    match o {
        Some(b) => b.2@,
        None => Seq::empty(),
    }
}

/// The hop count a memo entry holds (zero when there is none).
pub open spec fn hops_of(o: Option<PathRank>) -> int {
    match o {
        Some(b) => b.1 as int,
        None => 0,
    }
}

/// Every memoized path starts at its own node, walks forward along recorded
/// edges, visits no trace twice, and passes only through nodes that are
/// themselves memoized.
pub open spec fn memo_ok(
    nodes: Seq<TraceNode>,
    edges: Seq<(TraceRef, TraceRef)>,
    best: Seq<Option<PathRank>>,
) -> bool {
    &&& best.len() == nodes.len()
    &&& forall|k: int|
        0 <= k < best.len() && (#[trigger] best[k]) is Some ==> {
            let p = path_of(best[k]);
            &&& p.len() >= 1
            &&& p[0] == nodes[k].trace_ref
            &&& hops_of(best[k]) == p.len()
            &&& is_walk(edges, true, p)
            &&& p.no_duplicates()
            &&& forall|i: int|
                0 <= i < p.len() ==> has_ref(nodes, #[trigger] p[i]) && best[ref_index(
                    nodes,
                    p[i],
                )] is Some
        }
}

/// The summed duration a memo entry holds (zero when there is none).
pub open spec fn nanos_of(o: Option<PathRank>) -> nat {
    match o {
        Some(b) => b.0@,
        None => 0,
    }
}

/// Every memoized duration is the saturating sum along its path.
pub open spec fn memo_sums(nodes: Seq<TraceNode>, best: Seq<Option<PathRank>>) -> bool {
    forall|k: int|
        0 <= k < best.len() && (#[trigger] best[k]) is Some ==> nanos_of(best[k]) == walk_nanos(
            nodes,
            path_of(best[k]),
        )
}

/// No walk from the node at `k` ranks above the path memoized for it.
pub open spec fn unbeaten(
    nodes: Seq<TraceNode>,
    edges: Seq<(TraceRef, TraceRef)>,
    best: Seq<Option<PathRank>>,
    k: int,
) -> bool {
    forall|w: Seq<TraceRef>|
        #[trigger] is_walk(edges, true, w) && w[0] == nodes[k].trace_ref ==> !rank_above(
            walk_total(nodes, w) as int,
            w.len() as int,
            nanos_of(best[k]) as int,
            hops_of(best[k]),
        )
}

/// Every memoized path is unbeaten from its node.
pub open spec fn memo_optimal(
    nodes: Seq<TraceNode>,
    edges: Seq<(TraceRef, TraceRef)>,
    best: Seq<Option<PathRank>>,
) -> bool {
    forall|k: int| 0 <= k < best.len() && (#[trigger] best[k]) is Some ==> unbeaten(nodes, edges, best, k)
}

/// `e` is the position of the recorded edge from `a` to `b`.
pub open spec fn edge_pos(edges: Seq<(TraceRef, TraceRef)>, a: TraceRef, b: TraceRef, e: int) -> bool {
    0 <= e < edges.len() && edges[e] == (a, b)
}

/// Every successor of a memoized node is memoized.
pub open spec fn memo_full(nodes: Seq<TraceNode>, edges: Seq<(TraceRef, TraceRef)>, best: Seq<Option<PathRank>>) -> bool {
    forall|k: int, y: int|
        0 <= k < nodes.len() && 0 <= y < nodes.len() && (#[trigger] best[k]) is Some && #[trigger] idx_edge(
            nodes,
            edges,
            k,
            y,
        ) ==> best[y] is Some
}

/// Memo entry `a` ranks strictly above memo entry `b`.
pub open spec fn entry_above(a: Option<PathRank>, b: Option<PathRank>) -> bool {
    rank_above(nanos_of(a) as int, hops_of(a), nanos_of(b) as int, hops_of(b))
}

/// Each memoized path of more than one trace goes on with its successor's
/// memoized path, and that successor's entry ranks strictly above the
/// entry of every memoized successor reached by an edge recorded earlier.
pub open spec fn memo_ties(nodes: Seq<TraceNode>, edges: Seq<(TraceRef, TraceRef)>, best: Seq<Option<PathRank>>) -> bool {
    forall|k: int|
        0 <= k < best.len() && (#[trigger] best[k]) is Some && path_of(best[k]).len() >= 2 ==> {
            let p = path_of(best[k]);
            let t = ref_index(nodes, p[1]);
            &&& 0 <= t < nodes.len()
            &&& best[t] is Some
            &&& path_of(best[t]) == p.drop_first()
            &&& forall|y: int, e1: int, e2: int|
                0 <= y < nodes.len() && best[y] is Some && #[trigger] edge_pos(
                    edges,
                    nodes[k].trace_ref,
                    nodes[y].trace_ref,
                    e1,
                ) && #[trigger] edge_pos(edges, nodes[k].trace_ref, p[1], e2) && e1 < e2 ==> entry_above(
                    best[t],
                    best[y],
                )
        }
}

/// The entry built for `c` from the successor chosen first among the
/// highest ranked keeps the memo's tie-breaking, when every memoized node's
/// successors are memoized.
proof fn lemma_entry_ties(
    nodes: Seq<TraceNode>,
    edges: Seq<(TraceRef, TraceRef)>,
    best: Seq<Option<PathRank>>,
    c: int,
    tail: Option<usize>,
    jt: int,
    entry: PathRank,
)
    requires
        refs_distinct(nodes),
        edges.no_duplicates(),
        forall|i: int| 0 <= i < edges.len() ==> (#[trigger] edges[i]).0 != edges[i].1,
        0 <= c < nodes.len(),
        best.len() == nodes.len(),
        best[c] is None,
        memo_ok(nodes, edges, best),
        memo_full(nodes, edges, best),
        memo_ties(nodes, edges, best),
        tail is Some ==> {
            let t = tail->0 as int;
            &&& 0 <= t < nodes.len()
            &&& best[t] is Some
            &&& 0 <= jt < edges.len()
            &&& edges[jt] == (nodes[c].trace_ref, nodes[t].trace_ref)
            &&& forall|j2: int|
                0 <= j2 < jt && (#[trigger] edges[j2]).0 == nodes[c].trace_ref && has_ref(nodes, edges[j2].1)
                    && best[ref_index(nodes, edges[j2].1)] is Some ==> entry_above(
                    best[t],
                    best[ref_index(nodes, edges[j2].1)],
                )
        },
        entry.2@ == seq![nodes[c].trace_ref] + path_of(
            match tail {
                Some(t) => best[t as int],
                None => None,
            },
        ),
    ensures
        memo_ties(nodes, edges, best.update(c, Some(entry))),
{
    let nb = best.update(c, Some(entry));
    let c_ref = nodes[c].trace_ref;
    assert forall|k: int|
        0 <= k < nb.len() && (#[trigger] nb[k]) is Some && path_of(nb[k]).len() >= 2 implies {
            let p = path_of(nb[k]);
            let t = ref_index(nodes, p[1]);
            &&& 0 <= t < nodes.len()
            &&& nb[t] is Some
            &&& path_of(nb[t]) == p.drop_first()
            &&& forall|y: int, e1: int, e2: int|
                0 <= y < nodes.len() && nb[y] is Some && #[trigger] edge_pos(
                    edges,
                    nodes[k].trace_ref,
                    nodes[y].trace_ref,
                    e1,
                ) && #[trigger] edge_pos(edges, nodes[k].trace_ref, p[1], e2) && e1 < e2 ==> entry_above(
                    nb[t],
                    nb[y],
                )
        } by {
        let p = path_of(nb[k]);
        if k == c {
            let t = tail->0 as int;
            let tp = path_of(best[t]);
            assert(tail is Some) by {
                if tail is None {
                    assert(p =~= seq![c_ref]);
                }
            }
            assert(p =~= seq![c_ref] + tp);
            assert(tp.len() >= 1 && tp[0] == nodes[t].trace_ref);
            assert(p[1] == tp[0]);
            lemma_own_index(nodes, t);
            assert(t != c);
            assert(nb[t] == best[t]);
            assert(p.drop_first() =~= tp);
            assert forall|y: int, e1: int, e2: int|
                0 <= y < nodes.len() && nb[y] is Some && #[trigger] edge_pos(edges, c_ref, nodes[y].trace_ref, e1)
                    && #[trigger] edge_pos(edges, c_ref, p[1], e2) && e1 < e2 implies entry_above(nb[t], nb[y]) by {
                if e2 != jt {
                    assert(edges[e2] == edges[jt]);
                }
                assert(edges[e1].0 != edges[e1].1);
                assert(y != c);
                assert(nb[y] == best[y]);
                lemma_own_index(nodes, y);
                assert(edges[e1].1 == nodes[y].trace_ref);
            }
        } else {
            assert(nb[k] == best[k]);
            let t = ref_index(nodes, p[1]);
            assert(path_of(best[k]) == p);
            assert(best[t] is Some);
            assert(t != c);
            assert(nb[t] == best[t]);
            assert forall|y: int, e1: int, e2: int|
                0 <= y < nodes.len() && nb[y] is Some && #[trigger] edge_pos(
                    edges,
                    nodes[k].trace_ref,
                    nodes[y].trace_ref,
                    e1,
                ) && #[trigger] edge_pos(edges, nodes[k].trace_ref, p[1], e2) && e1 < e2 implies entry_above(
                    nb[t],
                    nb[y],
                ) by {
                if y == c {
                    assert(idx_edge(nodes, edges, k, c));
                    assert(best[c] is Some);
                }
                assert(nb[y] == best[y]);
            }
        }
    }
}

/// A node's own trace leads back to its own position.
proof fn lemma_own_index(nodes: Seq<TraceNode>, c: int)
    requires
        refs_distinct(nodes),
        0 <= c < nodes.len(),
    ensures
        has_ref(nodes, nodes[c].trace_ref),
        ref_index(nodes, nodes[c].trace_ref) == c,
{
    assert(nodes[c].trace_ref == nodes[c].trace_ref);
    let i = ref_index(nodes, nodes[c].trace_ref);
    if i != c {
        if i < c {
            assert(nodes[i].trace_ref != nodes[c].trace_ref);
        } else {
            assert(nodes[c].trace_ref != nodes[i].trace_ref);
        }
    }
}

/// The entry built for a node from its chosen successor's entry holds the
/// saturating sum along its path.
proof fn lemma_entry_sums(nodes: Seq<TraceNode>, c_ref: TraceRef, tb: Option<PathRank>, entry: PathRank)
    requires
        tb is Some ==> nanos_of(tb) == walk_nanos(nodes, path_of(tb)),
        entry.0@ == duration::min_nat(dur_of(nodes, c_ref) + nanos_of(tb), duration::max_nanos()),
        entry.2@ == seq![c_ref] + path_of(tb),
    ensures
        entry.0@ == walk_nanos(nodes, entry.2@),
{
    let p = entry.2@;
    assert(p[0] == c_ref);
    assert(p.drop_first() =~= path_of(tb));
    if tb is None {
        assert(walk_nanos(nodes, path_of(tb)) == 0);
    }
}

/// The entry built for `c` from the highest-ranked successor entry is
/// unbeaten, in an acyclic graph whose walks do not saturate, when every
/// successor is memoized and unbeaten.
proof fn lemma_entry_unbeaten(
    nodes: Seq<TraceNode>,
    edges: Seq<(TraceRef, TraceRef)>,
    best: Seq<Option<PathRank>>,
    c: int,
    tail: Option<usize>,
    entry: PathRank,
)
    requires
        refs_distinct(nodes),
        forall|i: int|
            0 <= i < edges.len() ==> has_ref(nodes, (#[trigger] edges[i]).0) && has_ref(nodes, edges[i].1),
        paths_fit(nodes, edges),
        0 <= c < nodes.len(),
        memo_ok(nodes, edges, best),
        memo_sums(nodes, best),
        memo_optimal(nodes, edges, best),
        best[c] is None,
        forall|y: int| 0 <= y < nodes.len() && #[trigger] idx_edge(nodes, edges, c, y) ==> best[y] is Some,
        forall|j: int|
            0 <= j < edges.len() && (#[trigger] edges[j]).0 == nodes[c].trace_ref && has_ref(nodes, edges[j].1)
                && best[ref_index(nodes, edges[j].1)] is Some ==> tail is Some && !rank_above(
                nanos_of(best[ref_index(nodes, edges[j].1)]) as int,
                hops_of(best[ref_index(nodes, edges[j].1)]),
                nanos_of(best[tail->0 as int]) as int,
                hops_of(best[tail->0 as int]),
            ),
        tail is Some ==> tail->0 < nodes.len() && best[tail->0 as int] is Some && idx_edge(
            nodes,
            edges,
            c,
            tail->0 as int,
        ),
        ({
            let tb = match tail {
                Some(t) => best[t as int],
                None => None,
            };
            &&& entry.0@ == duration::min_nat(
                dur_of(nodes, nodes[c].trace_ref) + nanos_of(tb),
                duration::max_nanos(),
            )
            &&& entry.1 == hops_of(tb) + 1
            &&& entry.2@ == seq![nodes[c].trace_ref] + path_of(tb)
        }),
    ensures
        unbeaten(nodes, edges, best.update(c, Some(entry)), c),
{
    let c_ref = nodes[c].trace_ref;
    let dc = dur_of(nodes, c_ref);
    let tb = match tail {
        Some(t) => best[t as int],
        None => None,
    };
    let nb = best.update(c, Some(entry));
    assert(nb[c] == Some(entry));
    // Without saturation, the entry's duration is its own plus the tail's.
    let tp = path_of(tb);
    if tail is Some {
        let t = tail->0 as int;
        assert(best[t] is Some);
        assert(is_walk(edges, true, tp) && tp.len() >= 1 && tp[0] == nodes[t].trace_ref);
        lemma_walk_unsaturated(nodes, edges, tp);
        let whole = seq![c_ref] + tp;
        assert(is_walk(edges, true, whole)) by {
            assert forall|i: int| 0 <= i < whole.len() - 1 implies steps_to(
                edges,
                true,
                #[trigger] whole[i],
                whole[i + 1],
            ) by {
                if i == 0 {
                    assert(whole[1] == tp[0]);
                } else {
                    assert(whole[i] == tp[i - 1] && whole[i + 1] == tp[i]);
                }
            }
        }
        assert(whole[0] == c_ref);
        assert(whole.drop_first() =~= tp);
        assert(walk_total(nodes, whole) == dc + walk_total(nodes, tp));
        assert(walk_total(nodes, whole) <= duration::max_nanos());
        assert(entry.0@ == dc + nanos_of(tb));
    }
    assert forall|w: Seq<TraceRef>| #[trigger] is_walk(edges, true, w) && w[0] == c_ref implies !rank_above(
        walk_total(nodes, w) as int,
        w.len() as int,
        nanos_of(nb[c]) as int,
        hops_of(nb[c]),
    ) by {
        assert(walk_total(nodes, w) <= duration::max_nanos());
        if w.len() == 1 {
            assert(w.drop_first().len() == 0);
            assert(walk_total(nodes, w.drop_first()) == 0);
            assert(walk_total(nodes, w) == dc);
        } else {
            let s = w.drop_first();
            lemma_walk_suffix(edges, w);
            assert(steps_to(edges, true, w[0], w[1]));
            let j = choose|j: int| 0 <= j < edges.len() && edges[j] == (w[0], w[1]);
            assert(has_ref(nodes, edges[j].1));
            let y = ref_index(nodes, w[1]);
            assert(nodes[y].trace_ref == w[1]);
            assert(idx_edge(nodes, edges, c, y));
            assert(best[y] is Some);
            assert(unbeaten(nodes, edges, best, y));
            assert(s[0] == w[1]);
            assert(is_walk(edges, true, s));
            assert(walk_total(nodes, w) == dc + walk_total(nodes, s));
            assert(tail is Some);
        }
    }
}

/// In an acyclic graph whose walks do not saturate, the path memoized for
/// the highest-ranked node is ranked at least as high as every walk.
proof fn lemma_winner_unbeaten(
    nodes: Seq<TraceNode>,
    edges: Seq<(TraceRef, TraceRef)>,
    best: Seq<Option<PathRank>>,
    order: Seq<usize>,
    w: int,
    out: Seq<TraceRef>,
)
    requires
        acyclic(edges),
        paths_fit(nodes, edges),
        crate::ordering::is_permutation(order, nodes.len()),
        best.len() == nodes.len(),
        memo_ok(nodes, edges, best),
        memo_sums(nodes, best),
        memo_optimal(nodes, edges, best),
        forall|i: int| 0 <= i < order.len() ==> (#[trigger] best[order[i] as int]) is Some,
        0 <= w < nodes.len(),
        best[w] is Some,
        forall|i: int|
            0 <= i < order.len() ==> !rank_above(
                nanos_of(#[trigger] best[order[i] as int]) as int,
                hops_of(best[order[i] as int]),
                nanos_of(best[w]) as int,
                hops_of(best[w]),
            ),
        out == path_of(best[w]),
        refs_distinct(nodes),
        forall|k: int|
            0 <= k < w ==> rank_above(
                nanos_of(best[w]) as int,
                hops_of(best[w]),
                nanos_of(#[trigger] best[k]) as int,
                hops_of(best[k]),
            ),
    ensures
        forall|x: Seq<TraceRef>|
            #[trigger] is_walk(edges, true, x) && has_ref(nodes, x[0]) ==> !rank_above(
                walk_total(nodes, x) as int,
                x.len() as int,
                walk_total(nodes, out) as int,
                out.len() as int,
            ),
        out.len() > 0,
        ref_index(nodes, out[0]) == w,
        forall|x: Seq<TraceRef>|
            #[trigger] is_walk(edges, true, x) && has_ref(nodes, x[0]) && ref_index(nodes, x[0]) < w ==> rank_above(
                walk_total(nodes, out) as int,
                out.len() as int,
                walk_total(nodes, x) as int,
                x.len() as int,
            ),
{
    lemma_own_index(nodes, w);
    assert(out[0] == nodes[w].trace_ref);
    crate::ordering::lemma_every_position_listed(order, nodes.len());
    lemma_walk_unsaturated(nodes, edges, out);
    assert forall|x: Seq<TraceRef>| #[trigger] is_walk(edges, true, x) && has_ref(nodes, x[0]) implies !rank_above(
        walk_total(nodes, x) as int,
        x.len() as int,
        walk_total(nodes, out) as int,
        out.len() as int,
    ) by {
        let k = ref_index(nodes, x[0]);
        assert(crate::ordering::lists_index(order, k));
        let i = choose|i: int| 0 <= i < order.len() && #[trigger] order[i] as int == k;
        assert(best[order[i] as int] is Some);
        assert(unbeaten(nodes, edges, best, k));
    }
    assert forall|x: Seq<TraceRef>|
        #[trigger] is_walk(edges, true, x) && has_ref(nodes, x[0]) && ref_index(nodes, x[0]) < w implies rank_above(
            walk_total(nodes, out) as int,
            out.len() as int,
            walk_total(nodes, x) as int,
            x.len() as int,
        ) by {
        let k = ref_index(nodes, x[0]);
        assert(crate::ordering::lists_index(order, k));
        let i = choose|i: int| 0 <= i < order.len() && #[trigger] order[i] as int == k;
        assert(best[order[i] as int] is Some);
        assert(unbeaten(nodes, edges, best, k));
        assert(rank_above(nanos_of(best[w]) as int, hops_of(best[w]), nanos_of(best[k]) as int, hops_of(best[k])));
    }
}

/// Along a memoized path, each suffix is the memoized path of its first
/// trace.
#[verifier::rlimit(30)]
proof fn lemma_suffix_memoized(
    nodes: Seq<TraceNode>,
    edges: Seq<(TraceRef, TraceRef)>,
    best: Seq<Option<PathRank>>,
    k0: int,
    r: Seq<TraceRef>,
    i: int,
)
    requires
        refs_distinct(nodes),
        memo_ties(nodes, edges, best),
        best.len() == nodes.len(),
        0 <= k0 < nodes.len(),
        best[k0] is Some,
        r == path_of(best[k0]),
        r.len() >= 1,
        r[0] == nodes[k0].trace_ref,
        0 <= i < r.len(),
    ensures
        0 <= ref_index(nodes, r[i]) < nodes.len(),
        best[ref_index(nodes, r[i])] is Some,
        path_of(best[ref_index(nodes, r[i])]) == r.skip(i),
    decreases i,
{
    if i == 0 {
        lemma_own_index(nodes, k0);
        assert(r.skip(0) =~= r);
    } else {
        lemma_suffix_memoized(nodes, edges, best, k0, r, i - 1);
        let k = ref_index(nodes, r[i - 1]);
        let p = path_of(best[k]);
        assert(p == r.skip(i - 1));
        assert(p.len() >= 2);
        assert(p[1] == r[i]);
        assert(p.drop_first() =~= r.skip(i));
        assert(best[k] is Some && path_of(best[k]).len() >= 2);
        let t = ref_index(nodes, p[1]);
        assert(0 <= t < nodes.len() && best[t] is Some && path_of(best[t]) == p.drop_first());
        assert(t == ref_index(nodes, r[i]));
    }
}

/// In an acyclic graph whose walks do not saturate, at each trace of a
/// memoized path, every walk from a successor whose edge was recorded
/// before the path's next edge ranks strictly below the rest of the path.
proof fn lemma_path_ties(
    nodes: Seq<TraceNode>,
    edges: Seq<(TraceRef, TraceRef)>,
    best: Seq<Option<PathRank>>,
    k0: int,
    r: Seq<TraceRef>,
)
    requires
        acyclic(edges),
        paths_fit(nodes, edges),
        refs_distinct(nodes),
        forall|j: int|
            0 <= j < edges.len() ==> has_ref(nodes, (#[trigger] edges[j]).0) && has_ref(nodes, edges[j].1),
        best.len() == nodes.len(),
        memo_ok(nodes, edges, best),
        memo_sums(nodes, best),
        memo_optimal(nodes, edges, best),
        memo_full(nodes, edges, best),
        memo_ties(nodes, edges, best),
        0 <= k0 < nodes.len(),
        best[k0] is Some,
        r == path_of(best[k0]),
    ensures
        forall|i: int, w: Seq<TraceRef>, e1: int, e2: int|
            0 <= i < r.len() - 1 && #[trigger] is_walk(edges, true, w) && #[trigger] edge_pos(edges, r[i], w[0], e1)
                && #[trigger] edge_pos(edges, r[i], r[i + 1], e2) && e1 < e2 ==> rank_above(
                walk_total(nodes, r.skip(i + 1)) as int,
                r.len() - (i + 1),
                walk_total(nodes, w) as int,
                w.len() as int,
            ),
{
    assert forall|i: int, w: Seq<TraceRef>, e1: int, e2: int|
        0 <= i < r.len() - 1 && #[trigger] is_walk(edges, true, w) && #[trigger] edge_pos(edges, r[i], w[0], e1)
            && #[trigger] edge_pos(edges, r[i], r[i + 1], e2) && e1 < e2 implies rank_above(
            walk_total(nodes, r.skip(i + 1)) as int,
            r.len() - (i + 1),
            walk_total(nodes, w) as int,
            w.len() as int,
        ) by {
        let yt = lemma_tie_facts(nodes, edges, best, k0, r, i, w[0], e1, e2);
        assert(unbeaten(nodes, edges, best, yt.0));
        lemma_tie_rank(nodes, edges, best, yt.0, yt.1, w);
    }
}

/// The successor a walk starts from, and the next trace of the memoized
/// path, at one tie between them.
proof fn lemma_tie_facts(
    nodes: Seq<TraceNode>,
    edges: Seq<(TraceRef, TraceRef)>,
    best: Seq<Option<PathRank>>,
    k0: int,
    r: Seq<TraceRef>,
    i: int,
    w0: TraceRef,
    e1: int,
    e2: int,
) -> (yt: (int, int))
    requires
        refs_distinct(nodes),
        forall|j: int|
            0 <= j < edges.len() ==> has_ref(nodes, (#[trigger] edges[j]).0) && has_ref(nodes, edges[j].1),
        best.len() == nodes.len(),
        memo_ok(nodes, edges, best),
        memo_full(nodes, edges, best),
        memo_ties(nodes, edges, best),
        0 <= k0 < nodes.len(),
        best[k0] is Some,
        r == path_of(best[k0]),
        0 <= i < r.len() - 1,
        edge_pos(edges, r[i], w0, e1),
        edge_pos(edges, r[i], r[i + 1], e2),
        e1 < e2,
    ensures
        0 <= yt.0 < nodes.len(),
        0 <= yt.1 < nodes.len(),
        best[yt.0] is Some,
        nodes[yt.0].trace_ref == w0,
        best[yt.1] is Some,
        path_of(best[yt.1]) == r.skip(i + 1),
        entry_above(best[yt.1], best[yt.0]),
{
    assert(r.len() >= 1 && r[0] == nodes[k0].trace_ref);
    lemma_suffix_memoized(nodes, edges, best, k0, r, i);
    lemma_suffix_memoized(nodes, edges, best, k0, r, i + 1);
    let ki = ref_index(nodes, r[i]);
    let t = ref_index(nodes, r[i + 1]);
    let p = path_of(best[ki]);
    assert(p == r.skip(i));
    assert(p[1] == r[i + 1]);
    assert(has_ref(nodes, edges[e1].1));
    let y = ref_index(nodes, w0);
    assert(nodes[y].trace_ref == w0);
    assert(nodes[ki].trace_ref == r[i]);
    assert(idx_edge(nodes, edges, ki, y));
    assert(best[y] is Some);
    assert(edge_pos(edges, nodes[ki].trace_ref, nodes[y].trace_ref, e1));
    assert(edge_pos(edges, nodes[ki].trace_ref, p[1], e2));
    (y, t)
}

/// A memoized path whose entry ranks strictly above an unbeaten entry
/// ranks strictly above every walk from that entry's trace.
proof fn lemma_tie_rank(
    nodes: Seq<TraceNode>,
    edges: Seq<(TraceRef, TraceRef)>,
    best: Seq<Option<PathRank>>,
    y: int,
    t: int,
    w: Seq<TraceRef>,
)
    requires
        paths_fit(nodes, edges),
        memo_ok(nodes, edges, best),
        memo_sums(nodes, best),
        0 <= t < best.len(),
        best[t] is Some,
        unbeaten(nodes, edges, best, y),
        is_walk(edges, true, w),
        w[0] == nodes[y].trace_ref,
        entry_above(best[t], best[y]),
    ensures
        rank_above(
            walk_total(nodes, path_of(best[t])) as int,
            path_of(best[t]).len() as int,
            walk_total(nodes, w) as int,
            w.len() as int,
        ),
{
    let q = path_of(best[t]);
    lemma_walk_unsaturated(nodes, edges, q);
}

/// `(d, h)` ranks strictly above `(cd, ch)`: slower, or as slow with more
/// hops.
fn ranks_above(d: &Duration, h: usize, cd: &Duration, ch: usize) -> (b: bool)
    ensures
        b == (d@ > cd@ || (d@ == cd@ && h > ch)),
{
    let a = d.as_nanos();
    let c = cd.as_nanos();
    a > c || (a == c && h > ch)
}

/// A directed graph of trace-to-trace lineage. Edges run producer to
/// consumer and are recorded explicitly by the caller.
#[derive(Debug, Clone)]
pub struct TraceGraph {
    nodes: Vec<TraceNode>,
    /// `(producer, consumer)` pairs, in the order they were recorded.
    edges: Vec<(TraceRef, TraceRef)>,
}

impl TraceGraph {
    /// The nodes, in the order they were first recorded.
    pub closed spec fn node_seq(self) -> Seq<TraceNode> {
        self.nodes@
    }

    /// The edges, in the order they were recorded.
    pub closed spec fn edge_seq(self) -> Seq<(TraceRef, TraceRef)> {
        self.edges@
    }

    /// One node per trace; every edge joins two distinct traces that both
    /// have a node; no edge is recorded twice.
    pub closed spec fn wf(self) -> bool {
        &&& refs_distinct(self.nodes@)
        &&& forall|i: int|
            0 <= i < self.edges@.len() ==> {
                let e = #[trigger] self.edges@[i];
                &&& e.0 != e.1
                &&& has_ref(self.nodes@, e.0)
                &&& has_ref(self.nodes@, e.1)
            }
        &&& self.edges@.no_duplicates()
    }

    /// An empty graph.
    pub fn new() -> (g: TraceGraph)
        ensures
            g.wf(),
            g.node_seq().len() == 0,
            g.edge_seq().len() == 0,
    {
        TraceGraph { nodes: Vec::new(), edges: Vec::new() }
    }

    /// The position of the node for `r`, if there is one.
    fn find(&self, r: TraceRef) -> (k: Option<usize>)
        requires
            self.wf(),
        ensures
            match k {
                Some(k) => k < self.nodes@.len() && self.nodes@[k as int].trace_ref == r && k
                    == ref_index(self.nodes@, r),
                None => !has_ref(self.nodes@, r),
            },
    {
        let mut i: usize = 0;
        while i < self.nodes.len()
            invariant
                i <= self.nodes@.len(),
                self.wf(),
                forall|j: int| 0 <= j < i ==> (#[trigger] self.nodes@[j]).trace_ref != r,
            decreases self.nodes@.len() - i,
        {
            if self.nodes[i].trace_ref.0 == r.0 {
                proof {
                    let c = ref_index(self.nodes@, r);
                    assert(self.nodes@[i as int].trace_ref == r);
                    if c != i as int {
                        assert(refs_distinct(self.nodes@));
                        if c < i {
                            assert(self.nodes@[c].trace_ref != self.nodes@[i as int].trace_ref);
                        } else {
                            assert(self.nodes@[i as int].trace_ref != self.nodes@[c].trace_ref);
                        }
                    }
                }
                return Some(i);
            }
            i = i + 1;
        }
        None
    }

    /// Insert `node`, replacing any node recorded for the same trace.
    pub fn record_node(&mut self, node: TraceNode)
        requires
            old(self).wf(),
        ensures
            final(self).wf(),
            final(self).node_seq() == (if has_ref(old(self).node_seq(), node.trace_ref) {
                old(self).node_seq().update(ref_index(old(self).node_seq(), node.trace_ref), node)
            } else {
                old(self).node_seq().push(node)
            }),
            final(self).edge_seq() == old(self).edge_seq(),
    {
        let r = node.trace_ref;
        match self.find(r) {
            Some(k) => {
                let ghost old_nodes = self.nodes@;
                self.nodes.set(k, node);
                proof {
                    assert forall|i: int| 0 <= i < self.edges@.len() implies {
                        let e = #[trigger] self.edges@[i];
                        &&& has_ref(self.nodes@, e.0)
                        &&& has_ref(self.nodes@, e.1)
                    } by {
                        let e = self.edges@[i];
                        let a = ref_index(old_nodes, e.0);
                        let b = ref_index(old_nodes, e.1);
                        assert(self.nodes@[a].trace_ref == e.0);
                        assert(self.nodes@[b].trace_ref == e.1);
                    }
                }
            },
            None => {
                let ghost old_nodes = self.nodes@;
                self.nodes.push(node);
                proof {
                    assert forall|i: int| 0 <= i < self.edges@.len() implies {
                        let e = #[trigger] self.edges@[i];
                        &&& has_ref(self.nodes@, e.0)
                        &&& has_ref(self.nodes@, e.1)
                    } by {
                        let e = self.edges@[i];
                        let a = ref_index(old_nodes, e.0);
                        let b = ref_index(old_nodes, e.1);
                        assert(self.nodes@[a].trace_ref == e.0);
                        assert(self.nodes@[b].trace_ref == e.1);
                    }
                }
            },
        }
    }

    /// Give `r` an unlabelled, untimed node unless it already has one.
    fn ensure_node(&mut self, r: TraceRef)
        requires
            old(self).wf(),
        ensures
            final(self).wf(),
            has_ref(final(self).nodes@, r),
            final(self).edges@ == old(self).edges@,
            old(self).nodes@.len() <= final(self).nodes@.len(),
            forall|i: int| 0 <= i < old(self).nodes@.len() ==> final(self).nodes@[i] == old(self).nodes@[i],
            final(self).nodes@.len() == old(self).nodes@.len() + (if has_ref(old(self).nodes@, r) {
                0int
            } else {
                1int
            }),
            !has_ref(old(self).nodes@, r) ==> final(self).nodes@.last().trace_ref == r
                && final(self).nodes@.last().label@.len() == 0 && final(self).nodes@.last().duration is None,
    {
        if self.find(r).is_none() {
            let n = TraceNode::new(r, "");
            proof {
                reveal_strlit("");
            }
            self.record_node(n);
        }
    }

    /// Record that `producer`'s output became `consumer`'s input.
    ///
    /// An endpoint with no node yet gets an unlabelled placeholder (the
    /// producer's first), so no edge dangles. A self-edge, or an edge
    /// already recorded, changes nothing.
    pub fn record_edge(&mut self, producer: TraceRef, consumer: TraceRef)
        requires
            old(self).wf(),
        ensures
            final(self).wf(),
            ({
                let (o, f) = (*old(self), *final(self));
                if producer == consumer || o.edge_seq().contains((producer, consumer)) {
                    f.node_seq() == o.node_seq() && f.edge_seq() == o.edge_seq()
                } else {
                    &&& f.edge_seq() == o.edge_seq().push((producer, consumer))
                    &&& has_ref(f.node_seq(), producer)
                    &&& has_ref(f.node_seq(), consumer)
                    &&& o.node_seq().len() <= f.node_seq().len()
                    &&& forall|i: int|
                        0 <= i < o.node_seq().len() ==> f.node_seq()[i] == o.node_seq()[i]
                    &&& forall|i: int|
                        o.node_seq().len() <= i < f.node_seq().len() ==> {
                            let n = #[trigger] f.node_seq()[i];
                            &&& (n.trace_ref == producer || n.trace_ref == consumer)
                            &&& n.label@.len() == 0
                            &&& n.duration is None
                        }
                    &&& f.node_seq().len() == o.node_seq().len() + (if has_ref(
                        o.node_seq(),
                        producer,
                    ) {
                        0int
                    } else {
                        1int
                    }) + (if has_ref(o.node_seq(), consumer) {
                        0int
                    } else {
                        1int
                    })
                }
            }),
    {
        if producer.0 == consumer.0 {
            return;
        }
        let mut i: usize = 0;
        while i < self.edges.len()
            invariant
                i <= self.edges@.len(),
                self.wf(),
                forall|j: int| 0 <= j < i ==> self.edges@[j] != (producer, consumer),
            decreases self.edges@.len() - i,
        {
            let e = self.edges[i];
            if e.0.0 == producer.0 && e.1.0 == consumer.0 {
                proof {
                    assert(self.edges@[i as int] == (producer, consumer));
                }
                return;
            }
            i = i + 1;
        }
        let ghost o_nodes = self.nodes@;
        self.ensure_node(producer);
        let ghost mid = self.nodes@;
        self.ensure_node(consumer);
        let ghost f_nodes = self.nodes@;
        proof {
            assert(has_ref(f_nodes, producer)) by {
                let k = ref_index(mid, producer);
                assert(f_nodes[k] == mid[k]);
            }
            assert(!self.edges@.contains((producer, consumer)));
        }
        self.edges.push((producer, consumer));
        proof {
            assert forall|i: int| 0 <= i < self.edges@.len() implies {
                let e = #[trigger] self.edges@[i];
                &&& e.0 != e.1
                &&& has_ref(self.nodes@, e.0)
                &&& has_ref(self.nodes@, e.1)
            } by {
                let e = self.edges@[i];
                if i < self.edges@.len() - 1 {
                    let a = ref_index(o_nodes, e.0);
                    let b = ref_index(o_nodes, e.1);
                    assert(f_nodes[a] == o_nodes[a]);
                    assert(f_nodes[b] == o_nodes[b]);
                }
            }
            assert(self.edges@.no_duplicates());
        }
    }

    /// The node recorded for `trace_ref`, if any.
    pub fn node(&self, trace_ref: &TraceRef) -> (r: Option<&TraceNode>)
        requires
            self.wf(),
        ensures
            match r {
                Some(n) => has_ref(self.node_seq(), *trace_ref) && *n == self.node_seq()[ref_index(
                    self.node_seq(),
                    *trace_ref,
                )],
                None => !has_ref(self.node_seq(), *trace_ref),
            },
    {
        match self.find(*trace_ref) {
            Some(k) => Some(&self.nodes[k]),
            None => None,
        }
    }

    /// Every recorded edge, in insertion order. No edge joins a trace to
    /// itself, none is recorded twice, every endpoint has a node, and no
    /// two nodes are for the same trace.
    pub fn edges(&self) -> (r: &[(TraceRef, TraceRef)])
        requires
            self.wf(),
        ensures
            r@ == self.edge_seq(),
            r@.no_duplicates(),
            forall|i: int|
                0 <= i < r@.len() ==> {
                    let e = #[trigger] r@[i];
                    &&& e.0 != e.1
                    &&& has_ref(self.node_seq(), e.0)
                    &&& has_ref(self.node_seq(), e.1)
                },
            refs_distinct(self.node_seq()),
    {
        self.edges.as_slice()
    }

    /// The number of nodes.
    pub fn len(&self) -> (n: usize)
        ensures
            n == self.node_seq().len(),
    {
        self.nodes.len()
    }

    /// True if no node has been recorded.
    pub fn is_empty(&self) -> (b: bool)
        ensures
            b == (self.node_seq().len() == 0),
    {
        self.nodes.len() == 0
    }

    /// Every trace reachable from `from` along recorded edges in the given
    /// direction, breadth-first, excluding `from` itself.
    fn reachable(&self, from: TraceRef, forward: bool) -> (r: Vec<&TraceNode>)
        requires
            self.wf(),
        ensures
            is_reach_result(self.nodes@, self.edges@, forward, from, crate::trace::derefs(r@)),
            nearest_first(self.edges@, forward, from, refs_of(crate::trace::derefs(r@))),
            discovery_order(self.edges@, forward, seq![from] + refs_of(crate::trace::derefs(r@))),
    {
        let ghost nodes = self.nodes@;
        let ghost edges = self.edges@;
        let mut order: Vec<TraceRef> = Vec::new();
        order.push(from);
        let mut out: Vec<&TraceNode> = Vec::new();
        let mut head: usize = 0;
        // The number of steps each listed trace lies from `from`.
        let ghost mut lvl: Seq<nat> = seq![0nat];
        // For each listed trace after the first: the position of the first
        // listed trace it was reached from, and the recorded edge used.
        let ghost mut par: Seq<int> = seq![0int];
        let ghost mut eid: Seq<int> = seq![0int];
        proof {
            lemma_within_start(edges, forward, from);
            assert forall|i: int, k: nat| 0 <= i < order@.len() && #[trigger] within(edges, forward, from, order@[i], k) implies lvl[i] <= k by {}
            assert forall|x: TraceRef, k: nat| #[trigger] within(edges, forward, from, x, k) && k <= lvl[0] implies order@.contains(x) by {
                lemma_within_zero(edges, forward, from, x);
                assert(order@[0] == x);
            }
        }
        while head < order.len()
            invariant
                par.len() == order@.len(),
                eid.len() == order@.len(),
                forall|k: int|
                    1 <= k < order@.len() ==> first_reached_from(edges, forward, order@, k, #[trigger] par[k])
                        && step_edge(edges, forward, order@[par[k]], order@[k], eid[k]) && par[k] < head,
                forall|k1: int, k2: int|
                    #![trigger par[k1], par[k2]]
                    1 <= k1 < k2 < order@.len() ==> par[k1] < par[k2] || (par[k1] == par[k2] && eid[k1]
                        < eid[k2]),
                lvl.len() == order@.len(),
                forall|i: int| 0 <= i < order@.len() ==> within(edges, forward, from, #[trigger] order@[i], lvl[i]),
                forall|i: int, k: nat|
                    0 <= i < order@.len() && #[trigger] within(edges, forward, from, order@[i], k) ==> lvl[i] <= k,
                forall|i: int, j: int| 0 <= i < j < lvl.len() ==> lvl[i] <= lvl[j],
                head < order@.len() ==> lvl[order@.len() - 1] <= lvl[head as int] + 1,
                head < order@.len() ==> forall|x: TraceRef, k: nat|
                    #[trigger] within(edges, forward, from, x, k) && k <= lvl[head as int] ==> order@.contains(x),
                self.wf(),
                nodes == self.nodes@,
                edges == self.edges@,
                order@.len() >= 1,
                order@[0] == from,
                head <= order@.len(),
                order@.len() <= nodes.len() + 1,
                order@.no_duplicates(),
                out@.len() + 1 == order@.len(),
                forall|i: int|
                    0 <= i < out@.len() ==> (#[trigger] out@[i]).trace_ref == order@[i + 1] && *out@[i]
                        == nodes[ref_index(nodes, order@[i + 1])],
                forall|k: int| 1 <= k < order@.len() ==> has_ref(nodes, #[trigger] order@[k]),
                forall|k: int|
                    1 <= k < order@.len() ==> reaches(edges, forward, from, #[trigger] order@[k]),
                forall|k: int, y: TraceRef|
                    0 <= k < head && #[trigger] steps_to(edges, forward, order@[k], y)
                        ==> order@.contains(y),
            decreases nodes.len() + 1 - head,
        {
            let cur = order[head];
            let mut j: usize = 0;
            while j < self.edges.len()
                invariant
                    par.len() == order@.len(),
                    eid.len() == order@.len(),
                    forall|k: int|
                        1 <= k < order@.len() ==> first_reached_from(edges, forward, order@, k, #[trigger] par[k])
                            && step_edge(edges, forward, order@[par[k]], order@[k], eid[k]) && par[k] <= head
                            && (par[k] == head ==> eid[k] < j),
                    forall|k1: int, k2: int|
                        #![trigger par[k1], par[k2]]
                        1 <= k1 < k2 < order@.len() ==> par[k1] < par[k2] || (par[k1] == par[k2] && eid[k1]
                            < eid[k2]),
                    lvl.len() == order@.len(),
                    forall|i: int| 0 <= i < order@.len() ==> within(edges, forward, from, #[trigger] order@[i], lvl[i]),
                    forall|i: int, k: nat|
                        0 <= i < order@.len() && #[trigger] within(edges, forward, from, order@[i], k) ==> lvl[i] <= k,
                    forall|i: int, j: int| 0 <= i < j < lvl.len() ==> lvl[i] <= lvl[j],
                    lvl[order@.len() - 1] <= lvl[head as int] + 1,
                    forall|x: TraceRef, k: nat|
                        #[trigger] within(edges, forward, from, x, k) && k <= lvl[head as int] ==> order@.contains(x),
                    self.wf(),
                    nodes == self.nodes@,
                    edges == self.edges@,
                    head < order@.len(),
                    cur == order@[head as int],
                    order@.len() >= 1,
                    order@[0] == from,
                    order@.len() <= nodes.len() + 1,
                    order@.no_duplicates(),
                    j <= edges.len(),
                    out@.len() + 1 == order@.len(),
                    forall|i: int|
                        0 <= i < out@.len() ==> (#[trigger] out@[i]).trace_ref == order@[i + 1]
                            && *out@[i] == nodes[ref_index(nodes, order@[i + 1])],
                    forall|k: int| 1 <= k < order@.len() ==> has_ref(nodes, #[trigger] order@[k]),
                    forall|k: int|
                        1 <= k < order@.len() ==> reaches(edges, forward, from, #[trigger] order@[k]),
                    forall|k: int, y: TraceRef|
                        0 <= k < head && #[trigger] steps_to(edges, forward, order@[k], y)
                            ==> order@.contains(y),
                    forall|i: int|
                        0 <= i < j ==> {
                            let e = #[trigger] edges[i];
                            &&& (forward && e.0 == cur ==> order@.contains(e.1))
                            &&& (!forward && e.1 == cur ==> order@.contains(e.0))
                        },
                decreases edges.len() - j,
            {
                let e = self.edges[j];
                let next: Option<TraceRef> = if forward {
                    if e.0.0 == cur.0 {
                        Some(e.1)
                    } else {
                        None
                    }
                } else {
                    if e.1.0 == cur.0 {
                        Some(e.0)
                    } else {
                        None
                    }
                };
                if let Some(y) = next {
                    if !lists(&order, y) {
                        proof {
                            assert(edges[j as int] == e);
                            assert(has_ref(nodes, y));
                            assert(steps_to(edges, forward, cur, y));
                            assert(reaches(edges, forward, from, y)) by {
                                if head == 0 {
                                    let w = seq![from, y];
                                    assert(is_walk(edges, forward, w));
                                } else {
                                    assert(reaches(edges, forward, from, order@[head as int]));
                                    let p = choose|p: Seq<TraceRef>|
                                        #[trigger] is_walk(edges, forward, p) && p[0] == from
                                            && p.last() == cur;
                                    let w = p.push(y);
                                    assert(is_walk(edges, forward, w)) by {
                                        assert forall|i: int| 0 <= i < w.len() - 1 implies steps_to(
                                            edges,
                                            forward,
                                            #[trigger] w[i],
                                            w[i + 1],
                                        ) by {
                                            if i < p.len() - 1 {
                                                assert(w[i] == p[i] && w[i + 1] == p[i + 1]);
                                            }
                                        }
                                    }
                                    assert(w[0] == from && w.last() == y);
                                }
                            }
                            let pushed = order@.push(y);
                            assert(pushed.no_duplicates());
                            assert forall|k: int| 1 <= k < pushed.len() implies has_ref(
                                nodes,
                                #[trigger] pushed[k],
                            ) by {
                                if k < order@.len() {
                                    assert(pushed[k] == order@[k]);
                                }
                            }
                            assert forall|k: int| 0 <= k < pushed.len() - 1 implies has_ref(
                                nodes,
                                #[trigger] pushed.drop_first()[k],
                            ) by {
                                assert(pushed.drop_first()[k] == pushed[k + 1]);
                            }
                            assert(pushed.drop_first().no_duplicates());
                            lemma_distinct_refs_bounded(pushed.drop_first(), nodes);
                        }
                        let found = self.find(y);
                        match found {
                            Some(k) => {
                                let ghost old_order = order@;
                                order.push(y);
                                out.push(&self.nodes[k]);
                                proof {
                                    assert forall|z: TraceRef| old_order.contains(z) implies order@.contains(
                                        z,
                                    ) by {
                                        let i = choose|i: int| 0 <= i < old_order.len() && old_order[i] == z;
                                        assert(order@[i] == z);
                                    }
                                    assert(order@[order@.len() - 1] == y);
                                    let old_par = par;
                                    let old_eid = eid;
                                    par = old_par.push(head as int);
                                    eid = old_eid.push(j as int);
                                    assert forall|k: int|
                                        1 <= k < order@.len() implies first_reached_from(
                                        edges,
                                        forward,
                                        order@,
                                        k,
                                        #[trigger] par[k],
                                    ) && step_edge(edges, forward, order@[par[k]], order@[k], eid[k]) && par[k] <= head
                                        && (par[k] == head ==> eid[k] < j + 1) by {
                                        if k < old_order.len() {
                                            assert(order@[k] == old_order[k]);
                                            assert(order@[par[k]] == old_order[par[k]]);
                                            assert forall|j2: int| 0 <= j2 < par[k] implies !steps_to(
                                                edges,
                                                forward,
                                                #[trigger] order@[j2],
                                                order@[k],
                                            ) by {
                                                assert(order@[j2] == old_order[j2]);
                                            }
                                        } else {
                                            assert(order@[head as int] == cur);
                                            assert forall|j2: int| 0 <= j2 < head implies !steps_to(
                                                edges,
                                                forward,
                                                #[trigger] order@[j2],
                                                order@[k],
                                            ) by {
                                                assert(order@[j2] == old_order[j2]);
                                                if steps_to(edges, forward, old_order[j2], y) {
                                                    assert(old_order.contains(y));
                                                }
                                            }
                                            assert(edges[j as int] == e);
                                        }
                                    }
                                    let old_lvl = lvl;
                                    let l = old_lvl[head as int];
                                    lvl = old_lvl.push(l + 1);
                                    assert(within(edges, forward, from, old_order[head as int], l));
                                    lemma_within_extend(edges, forward, from, cur, y, l);
                                    assert forall|i: int| 0 <= i < order@.len() implies within(
                                        edges,
                                        forward,
                                        from,
                                        #[trigger] order@[i],
                                        lvl[i],
                                    ) by {
                                        if i < old_order.len() {
                                            assert(order@[i] == old_order[i]);
                                        }
                                    }
                                    assert forall|i: int, k: nat|
                                        0 <= i < order@.len() && #[trigger] within(edges, forward, from, order@[i], k) implies lvl[i]
                                        <= k by {
                                        if i < old_order.len() {
                                            assert(order@[i] == old_order[i]);
                                        } else if k <= l {
                                            assert(old_order.contains(y));
                                        }
                                    }
                                    assert forall|i: int, j: int| 0 <= i < j < lvl.len() implies lvl[i] <= lvl[j] by {
                                        if j == lvl.len() - 1 && i < old_lvl.len() - 1 {
                                            assert(old_lvl[i] <= old_lvl[old_lvl.len() - 1]);
                                        }
                                    }
                                }
                            },
                            None => {
                                proof {
                                    assert(false);
                                }
                            },
                        }
                    }
                }
                j = j + 1;
            }
            proof {
                assert forall|k: int, y: TraceRef|
                    0 <= k < head + 1 && #[trigger] steps_to(edges, forward, order@[k], y)
                        implies order@.contains(y) by {
                    if k == head {
                        if forward {
                            let i = choose|i: int| 0 <= i < edges.len() && edges[i] == (cur, y);
                            assert(edges[i].0 == cur);
                        } else {
                            let i = choose|i: int| 0 <= i < edges.len() && edges[i] == (y, cur);
                            assert(edges[i].1 == cur);
                        }
                    }
                }
                if head + 1 < order@.len() {
                    lemma_frontier_advance(edges, forward, from, order@, lvl, head as int);
                    assert(lvl[head as int] <= lvl[head + 1]);
                }
            }
            head = head + 1;
        }
        proof {
            let res = crate::trace::derefs(out@);
            assert(refs_of(res) =~= order@.drop_first()) by {
                assert forall|i: int| 0 <= i < res.len() implies refs_of(res)[i]
                    == order@.drop_first()[i] by {
                    assert(out@[i].trace_ref == order@[i + 1]);
                }
            }
            assert(closed_under(edges, forward, order@));
            assert forall|x: TraceRef|
                #![trigger refs_of(res).contains(x)]
                #![trigger reaches(edges, forward, from, x)]
                refs_of(res).contains(x) <==> (x != from && reaches(edges, forward, from, x)) by {
                if refs_of(res).contains(x) {
                    let i = choose|i: int| 0 <= i < refs_of(res).len() && refs_of(res)[i] == x;
                    assert(order@[i + 1] == x);
                    assert(order@[0] != order@[i + 1]);
                }
                if x != from && reaches(edges, forward, from, x) {
                    let p = choose|p: Seq<TraceRef>|
                        #[trigger] is_walk(edges, forward, p) && p[0] == from && p.last() == x;
                    assert(order@.contains(p[0])) by {
                        assert(order@[0] == p[0]);
                    }
                    lemma_walk_stays(edges, forward, order@, p, p.len() - 1);
                    let k = choose|k: int| 0 <= k < order@.len() && order@[k] == x;
                    assert(k != 0);
                    assert(refs_of(res)[k - 1] == x);
                }
            }
            assert forall|i: int| 0 <= i < res.len() implies has_ref(
                nodes,
                (#[trigger] res[i]).trace_ref,
            ) && res[i] == nodes[ref_index(nodes, res[i].trace_ref)] by {
                assert(res[i] == *out@[i]);
                assert(has_ref(nodes, order@[i + 1]));
            }
            let whole = seq![from] + refs_of(res);
            assert(whole =~= order@);
            assert forall|k: int| 1 <= k < whole.len() implies #[trigger] reached_by_step(edges, forward, whole, k) by {
                assert(first_reached_from(edges, forward, whole, k, par[k]));
                assert(step_edge(edges, forward, whole[par[k]], whole[k], eid[k]));
            }
            assert forall|k1: int, k2: int, j1: int, e1: int, j2: int, e2: int|
                1 <= k1 < k2 < whole.len() && #[trigger] first_reached_from(edges, forward, whole, k1, j1)
                    && #[trigger] step_edge(edges, forward, whole[j1], whole[k1], e1) && #[trigger] first_reached_from(
                    edges,
                    forward,
                    whole,
                    k2,
                    j2,
                ) && #[trigger] step_edge(edges, forward, whole[j2], whole[k2], e2) implies j1 < j2 || (j1 == j2
                && e1 < e2) by {
                assert(first_reached_from(edges, forward, whole, k1, par[k1]));
                assert(first_reached_from(edges, forward, whole, k2, par[k2]));
                lemma_first_reached_unique(edges, forward, whole, k1, j1, par[k1]);
                lemma_first_reached_unique(edges, forward, whole, k2, j2, par[k2]);
                assert(edges[e1] == edges[eid[k1]]);
                assert(edges[e2] == edges[eid[k2]]);
                assert(par[k1] < par[k2] || (par[k1] == par[k2] && eid[k1] < eid[k2]));
                if e1 != eid[k1] {
                    assert(edges.no_duplicates());
                }
                if e2 != eid[k2] {
                    assert(edges.no_duplicates());
                }
            }
            assert(discovery_order(edges, forward, whole));
            let refs = refs_of(res);
            assert forall|i: int, j: int, k: nat|
                #![trigger refs[i], within(edges, forward, from, refs[j], k)]
                0 <= i < j < refs.len() && within(edges, forward, from, refs[j], k) implies within(
                edges,
                forward,
                from,
                refs[i],
                k,
            ) by {
                assert(refs[j] == order@[j + 1] && refs[i] == order@[i + 1]);
                assert(lvl[i + 1] <= lvl[j + 1]);
                lemma_within_more(edges, forward, from, order@[i + 1], lvl[i + 1], k);
            }
        }
        out
    }

    /// Every trace transitively caused by `trace_ref`, breadth-first,
    /// excluding `trace_ref` itself: nearest first, and within one distance
    /// in the order a breadth-first search meets them (the trace each was
    /// first reached from, then the recorded order of edges).
    pub fn downstream_of(&self, trace_ref: &TraceRef) -> (r: Vec<&TraceNode>)
        requires
            self.wf(),
        ensures
            is_reach_result(
                self.node_seq(),
                self.edge_seq(),
                true,
                *trace_ref,
                crate::trace::derefs(r@),
            ),
            nearest_first(self.edge_seq(), true, *trace_ref, refs_of(crate::trace::derefs(r@))),
            discovery_order(self.edge_seq(), true, seq![*trace_ref] + refs_of(crate::trace::derefs(r@))),
    {
        self.reachable(*trace_ref, true)
    }

    /// Every trace that transitively fed into `trace_ref`, breadth-first,
    /// excluding `trace_ref` itself: nearest first, and within one distance
    /// in the order a breadth-first search meets them (the trace each was
    /// first reached from, then the recorded order of edges).
    pub fn upstream_of(&self, trace_ref: &TraceRef) -> (r: Vec<&TraceNode>)
        requires
            self.wf(),
        ensures
            is_reach_result(
                self.node_seq(),
                self.edge_seq(),
                false,
                *trace_ref,
                crate::trace::derefs(r@),
            ),
            nearest_first(self.edge_seq(), false, *trace_ref, refs_of(crate::trace::derefs(r@))),
            discovery_order(self.edge_seq(), false, seq![*trace_ref] + refs_of(crate::trace::derefs(r@))),
    {
        self.reachable(*trace_ref, false)
    }

    /// Node positions in the order the nodes were first recorded, so that
    /// ties between starting nodes go to the first-recorded one.
    fn recorded_positions(&self) -> (p: Vec<usize>)
        ensures
            p@.len() == self.nodes@.len(),
            forall|k: int| 0 <= k < p@.len() ==> #[trigger] p@[k] == k,
            crate::ordering::is_permutation(p@, self.nodes@.len()),
    {
        let mut p: Vec<usize> = Vec::new();
        let mut i: usize = 0;
        while i < self.nodes.len()
            invariant
                i <= self.nodes@.len(),
                p@.len() == i,
                forall|k: int| 0 <= k < i ==> #[trigger] p@[k] == k,
            decreases self.nodes@.len() - i,
        {
            p.push(i);
            i = i + 1;
        }
        p
    }

    /// Memoized depth-first search for the best path starting at `start`.
    /// Iterative, so a pathological graph exhausts a `Vec`, not the call
    /// stack; an edge back to a node still being expanded is ignored.
    #[verifier::rlimit(100)]
    #[verifier::spinoff_prover]
    fn longest_from(
        &self,
        start: usize,
        best: &mut Vec<Option<PathRank>>,
        in_progress: &mut Vec<bool>,
        Ghost(touched): Ghost<Set<int>>,
    ) -> (touched_after: Ghost<Set<int>>)
        requires
            self.wf(),
            start < self.nodes@.len(),
            memo_ok(self.nodes@, self.edges@, old(best)@),
            memo_sums(self.nodes@, old(best)@),
            acyclic(self.edges@) && paths_fit(self.nodes@, self.edges@) ==> memo_optimal(
                self.nodes@,
                self.edges@,
                old(best)@,
            ),
            old(in_progress)@.len() == self.nodes@.len(),
            forall|k: int| 0 <= k < old(in_progress)@.len() ==> !(#[trigger] old(in_progress)@[k]),
            memo_closed(self.nodes@, self.edges@, old(best)@, old(in_progress)@),
            acyclic(self.edges@) ==> memo_full(self.nodes@, self.edges@, old(best)@) && memo_ties(
                self.nodes@,
                self.edges@,
                old(best)@,
            ),
            touched.finite(),
            forall|k: int|
                #[trigger] touched.contains(k) <==> (0 <= k < self.nodes@.len() && (old(in_progress)@[k] || old(best)@[k] is Some)),
        ensures
            memo_ok(self.nodes@, self.edges@, final(best)@),
            memo_sums(self.nodes@, final(best)@),
            acyclic(self.edges@) && paths_fit(self.nodes@, self.edges@) ==> memo_optimal(
                self.nodes@,
                self.edges@,
                final(best)@,
            ),
            final(in_progress)@.len() == self.nodes@.len(),
            forall|k: int| 0 <= k < final(in_progress)@.len() ==> !(#[trigger] final(in_progress)@[k]),
            final(best)@[start as int] is Some,
            forall|k: int| 0 <= k < old(best)@.len() && old(best)@[k] is Some ==> #[trigger] final(best)@[k] == old(best)@[k],
            memo_closed(self.nodes@, self.edges@, final(best)@, final(in_progress)@),
            acyclic(self.edges@) ==> memo_full(self.nodes@, self.edges@, final(best)@) && memo_ties(
                self.nodes@,
                self.edges@,
                final(best)@,
            ),
            forall|y: TraceRef|
                #[trigger] reaches(self.edges@, true, self.nodes@[start as int].trace_ref, y) ==> has_ref(self.nodes@, y)
                    && final(best)@[ref_index(self.nodes@, y)] is Some,
            touched_after@.finite(),
            forall|k: int|
                #[trigger] touched_after@.contains(k) <==> (0 <= k < self.nodes@.len() && (final(in_progress)@[k] || final(best)@[k] is Some)),
    {
        let ghost nodes = self.nodes@;
        let ghost edges = self.edges@;
        let ghost old_best = best@;
        let ghost n = nodes.len();
        let ghost mut touched = touched;
        let mut stack: Vec<(usize, bool)> = Vec::new();
        stack.push((start, false));
        proof {
            vstd::set_lib::lemma_int_range(0, n as int);
            assert(touched.subset_of(vstd::set_lib::set_int_range(0, n as int)));
            vstd::set_lib::lemma_len_subset(touched, vstd::set_lib::set_int_range(0, n as int));
            assert(forall|i: int| 0 <= i < edges.len() ==> (#[trigger] edges[i]).0 != edges[i].1);
            assert(stack@[0] == (start, false));
            assert(has_parent(nodes, edges, stack@, 0, start));
            assert(n == self.nodes.len());
        }
        while stack.len() > 0
            invariant
                self.wf(),
                nodes == self.nodes@,
                edges == self.edges@,
                n == nodes.len(),
                n <= usize::MAX,
                start < n,
                memo_ok(nodes, edges, best@),
                memo_sums(nodes, best@),
                acyclic(edges) && paths_fit(nodes, edges) ==> memo_optimal(nodes, edges, best@),
                in_progress@.len() == n,
                forall|i: int| 0 <= i < edges.len() ==> (#[trigger] edges[i]).0 != edges[i].1,
                stack_shape(nodes, edges, stack@, in_progress@, start),
                acyclic(edges) ==> covered_below(nodes, edges, stack@, best@, stack@.len() as int),
                forall|k: int| 0 <= k < stack@.len() ==> (#[trigger] stack@[k]).0 < n,
                forall|k: int|
                    0 <= k < n && #[trigger] in_progress@[k] ==> stack@.contains((k as usize, true)),
                forall|k: int| 0 <= k < n && (#[trigger] best@[k]) is Some ==> !in_progress@[k],
                best@[start as int] is Some || in_progress@[start as int] || stack@ == seq![
                    (start, false),
                ],
                forall|k: int| 0 <= k < n && old_best[k] is Some ==> #[trigger] best@[k] == old_best[k],
                reached_below(nodes, edges, stack@, best@, in_progress@, stack@.len() as int),
                memo_closed(nodes, edges, best@, in_progress@),
                acyclic(edges) ==> memo_full(nodes, edges, best@) && memo_ties(nodes, edges, best@),
                touched.finite(),
                touched.len() <= n,
                forall|i: int| 0 <= i < stack@.len() && (#[trigger] stack@[i]).1 ==> touched.contains(stack@[i].0 as int),
                forall|k: int|
                    #[trigger] touched.contains(k) <==> (0 <= k < n && (in_progress@[k]
                        || best@[k] is Some)),
            decreases n - touched.len(), stack@.len(),
        {
            let ghost before = stack@;
            let ghost inp0 = in_progress@;
            let (cur, expanded) = stack.pop().unwrap();
            proof {
                assert(stack@ == before.drop_last() && (cur, expanded) == before.last());
                assert forall|k: int|
                    0 <= k < n && in_progress@[k] && !(k == cur as int && expanded) implies stack@.contains(
                    (k as usize, true),
                ) by {
                    let i = choose|i: int| 0 <= i < before.len() && before[i] == (k as usize, true);
                    if i == before.len() - 1 {
                        assert(before[i] == (cur, expanded));
                        assert(k == cur as int);
                    }
                    assert(stack@[i] == before[i]);
                }
                assert(expanded ==> touched.contains(cur as int)) by {
                    assert(before[before.len() - 1] == (cur, expanded));
                }
                assert forall|i: int| 0 <= i < stack@.len() && (#[trigger] stack@[i]).1 implies touched.contains(stack@[i].0 as int) by {
                    assert(stack@[i] == before[i]);
                }
            }
            if best[cur].is_some() {
                proof {
                    lemma_reached_pop(nodes, edges, before, best@, inp0);
                    lemma_pop_shape(nodes, edges, before, inp0, start);
                    if acyclic(edges) {
                        lemma_pop_covered(nodes, edges, before, inp0, best@, start);
                    }
                }
                continue;
            }
            if !expanded {
                if in_progress[cur] {
                    proof {
                        lemma_reached_pop(nodes, edges, before, best@, inp0);
                        lemma_pop_shape(nodes, edges, before, inp0, start);
                        if acyclic(edges) {
                            lemma_pop_covered(nodes, edges, before, inp0, best@, start);
                        }
                    }
                    continue;
                }
                let ghost pre_push = stack@;
                in_progress.set(cur, true);
                stack.push((cur, true));
                let ghost p = stack@.len() - 1;
                proof {
                    lemma_expand_shape(nodes, edges, before, inp0, start);
                    assert(stack@ == before.drop_last().push((cur, true)));
                    lemma_reached_retop(nodes, edges, before, best@, inp0, (cur, true));
                    lemma_reached_update(nodes, edges, stack@, best@, inp0, best@, in_progress@, p);
                    assert(memo_closed(nodes, edges, best@, in_progress@)) by {
                        assert forall|k: int, y: int|
                            0 <= k < nodes.len() && 0 <= y < nodes.len() && (#[trigger] best@[k]) is Some
                                && #[trigger] idx_edge(nodes, edges, k, y) implies best@[y] is Some || in_progress@[y] by {
                            assert(best@[y] is Some || inp0[y]);
                        }
                    }
                    if acyclic(edges) {
                        lemma_retop_covered(nodes, edges, before, best@, (cur, true));
                    }
                    touched = touched.insert(cur as int);
                    vstd::set_lib::lemma_int_range(0, n as int);
                    assert(touched.subset_of(vstd::set_lib::set_int_range(0, n as int)));
                    vstd::set_lib::lemma_len_subset(touched, vstd::set_lib::set_int_range(0, n as int));
                    assert(stack@.last() == (cur, true));
                    assert forall|i: int| 0 <= i < stack@.len() && (#[trigger] stack@[i]).1 implies touched.contains(stack@[i].0 as int) by {
                        if i < pre_push.len() {
                            assert(stack@[i] == pre_push[i]);
                        }
                    }
                    assert forall|k: int|
                        0 <= k < n && #[trigger] in_progress@[k] implies stack@.contains((k as usize, true)) by {
                        if k != cur as int {
                            assert(pre_push.contains((k as usize, true)));
                            let i = choose|i: int| 0 <= i < pre_push.len() && pre_push[i] == (k as usize, true);
                            assert(stack@[i] == pre_push[i]);
                        } else {
                            assert(stack@[stack@.len() - 1] == (cur, true));
                        }
                    }
                }
                let cur_ref = self.nodes[cur].trace_ref;
                let mut j: usize = 0;
                while j < self.edges.len()
                    invariant
                        self.wf(),
                        nodes == self.nodes@,
                        edges == self.edges@,
                        n == nodes.len(),
                        n <= usize::MAX,
                        j <= edges.len(),
                        cur < n,
                        cur_ref == nodes[cur as int].trace_ref,
                        best@.len() == n,
                        in_progress@.len() == n,
                        in_progress@[cur as int],
                        forall|i: int| 0 <= i < stack@.len() && (#[trigger] stack@[i]).1 ==> touched.contains(stack@[i].0 as int),
                        stack@.contains((cur, true)),
                        forall|k: int| 0 <= k < stack@.len() ==> (#[trigger] stack@[k]).0 < n,
                        forall|k: int|
                            0 <= k < n && #[trigger] in_progress@[k] ==> stack@.contains(
                                (k as usize, true),
                            ),
                        stack_shape(nodes, edges, stack@, in_progress@, start),
                        0 <= p < stack@.len(),
                        stack@[p] == (cur, true),
                        forall|m: int| p < m < stack@.len() ==> !(#[trigger] stack@[m]).1,
                        acyclic(edges) ==> covered_below(nodes, edges, stack@, best@, p),
                        reached_below(nodes, edges, stack@, best@, in_progress@, p),
                        forall|j2: int|
                            0 <= j2 < j && (#[trigger] edges[j2]).0 == cur_ref && has_ref(nodes, edges[j2].1) ==> {
                                let y = ref_index(nodes, edges[j2].1);
                                best@[y] is Some || in_progress@[y] || exists|m: int|
                                    p < m < stack@.len() && (#[trigger] stack@[m]).0 as int == y
                            },
                    decreases edges.len() - j,
                {
                    let e = self.edges[j];
                    if e.0.0 == cur_ref.0 {
                        proof {
                            assert(edges[j as int] == e);
                        }
                        match self.find(e.1) {
                            Some(nx) => {
                                if best[nx].is_none() && !in_progress[nx] {
                                    let ghost before = stack@;
                                    stack.push((nx, false));
                                    proof {
                                        assert(idx_edge(nodes, edges, before[p].0 as int, nx as int));
                                        lemma_push_child(nodes, edges, before, in_progress@, start, p, nx);
                                        assert(stack@[p] == before[p]);
                                        assert forall|m: int| p < m < stack@.len() implies !(#[trigger] stack@[m]).1 by {
                                            if m < before.len() {
                                                assert(stack@[m] == before[m]);
                                            }
                                        }
                                        assert forall|i: int, y: int|
                                            0 <= i < p && i < stack@.len() && (#[trigger] stack@[i]).1 && 0 <= y < nodes.len()
                                                && #[trigger] idx_edge(nodes, edges, stack@[i].0 as int, y) implies best@[y] is Some
                                                || in_progress@[y] || exists|m: int| i < m < stack@.len() && (#[trigger] stack@[m]).0 as int == y by {
                                            assert(stack@[i] == before[i]);
                                            if !(best@[y] is Some || in_progress@[y]) {
                                                let m = choose|m: int| i < m < before.len() && (#[trigger] before[m]).0 as int == y;
                                                assert(stack@[m] == before[m]);
                                            }
                                        }
                                        if acyclic(edges) {
                                            assert forall|i: int, y: int|
                                                0 <= i < p && i < stack@.len() && (#[trigger] stack@[i]).1 && 0 <= y < nodes.len()
                                                    && #[trigger] idx_edge(nodes, edges, stack@[i].0 as int, y) implies best@[y] is Some
                                                    || exists|m: int| i < m < stack@.len() && (#[trigger] stack@[m]).0 as int == y by {
                                                assert(stack@[i] == before[i]);
                                                if !(best@[y] is Some) {
                                                    let m = choose|m: int| i < m < before.len() && (#[trigger] before[m]).0 as int == y;
                                                    assert(stack@[m] == before[m]);
                                                }
                                            }
                                        }
                                        assert forall|j2: int|
                                            0 <= j2 <= j && (#[trigger] edges[j2]).0 == cur_ref && has_ref(nodes, edges[j2].1) implies {
                                                let y = ref_index(nodes, edges[j2].1);
                                                best@[y] is Some || in_progress@[y] || exists|m: int|
                                                    p < m < stack@.len() && (#[trigger] stack@[m]).0 as int == y
                                            } by {
                                            let y = ref_index(nodes, edges[j2].1);
                                            if j2 == j {
                                                assert(stack@[stack@.len() - 1].0 as int == y);
                                            } else if !(best@[y] is Some || in_progress@[y]) {
                                                let m = choose|m: int| p < m < before.len() && (#[trigger] before[m]).0 as int == y;
                                                assert(stack@[m] == before[m]);
                                            }
                                        }
                                        assert forall|i: int| 0 <= i < stack@.len() && (#[trigger] stack@[i]).1 implies touched.contains(stack@[i].0 as int) by {
                                            if i < before.len() {
                                                assert(stack@[i] == before[i]);
                                            }
                                        }
                                        assert forall|k: int|
                                            0 <= k < n && #[trigger] in_progress@[k] implies stack@.contains(
                                            (k as usize, true),
                                        ) by {
                                            let i = choose|i: int|
                                                0 <= i < before.len() && before[i] == (k as usize, true);
                                            assert(stack@[i] == (k as usize, true));
                                        }
                                        let i = choose|i: int|
                                            0 <= i < before.len() && before[i] == (cur, true);
                                        assert(stack@[i] == (cur, true));
                                    }
                                }
                            },
                            None => {},
                        }
                    }
                    j = j + 1;
                }
                proof {
                    lemma_reached_expand(nodes, edges, stack@, best@, in_progress@, p);
                    if acyclic(edges) {
                        lemma_expand_covered(nodes, edges, stack@, in_progress@, best@, start, p);
                    }
                }
                continue;
            }
            // Finalize `cur`: the best memoized successor's path, with `cur` in front.

            proof {
                lemma_reached_top(nodes, edges, before, best@, inp0);
                assert(before[before.len() - 1] == before.last());
                assert(inp0[cur as int]);
                if acyclic(edges) {
                    lemma_top_successors_done(nodes, edges, before, best@);
                }
            }
            let cur_ref = self.nodes[cur].trace_ref;
            let mut tail: Option<usize> = None;
            // The position of the edge to the chosen successor.
            let ghost mut jt: int = 0;
            let mut j: usize = 0;
            while j < self.edges.len()
                invariant
                    self.wf(),
                    nodes == self.nodes@,
                    edges == self.edges@,
                    n == nodes.len(),
                    best@.len() == n,
                    j <= edges.len(),
                    cur < n,
                    cur_ref == nodes[cur as int].trace_ref,
                    match tail {
                        Some(t) => t < n && best@[t as int] is Some && edges.contains(
                            (cur_ref, nodes[t as int].trace_ref),
                        ),
                        None => true,
                    },
                    forall|j2: int|
                        0 <= j2 < j && (#[trigger] edges[j2]).0 == cur_ref && has_ref(nodes, edges[j2].1)
                            && best@[ref_index(nodes, edges[j2].1)] is Some ==> tail is Some && !rank_above(
                            nanos_of(best@[ref_index(nodes, edges[j2].1)]) as int,
                            hops_of(best@[ref_index(nodes, edges[j2].1)]),
                            nanos_of(best@[tail->0 as int]) as int,
                            hops_of(best@[tail->0 as int]),
                        ),
                    tail is Some ==> {
                        let t = tail->0 as int;
                        &&& 0 <= jt < j
                        &&& edges[jt] == (cur_ref, nodes[t].trace_ref)
                        &&& forall|j2: int|
                            0 <= j2 < jt && (#[trigger] edges[j2]).0 == cur_ref && has_ref(nodes, edges[j2].1)
                                && best@[ref_index(nodes, edges[j2].1)] is Some ==> entry_above(
                                best@[t],
                                best@[ref_index(nodes, edges[j2].1)],
                            )
                    },
                decreases edges.len() - j,
            {
                let e = self.edges[j];
                if e.0.0 == cur_ref.0 {
                    proof {
                        assert(edges[j as int] == e);
                    }
                    match self.find(e.1) {
                        Some(nx) => {
                            match &best[nx] {
                                Some(cand) => {
                                    let better = match tail {
                                        None => true,
                                        Some(t) => match &best[t] {
                                            Some(current) => ranks_above(
                                                &cand.0,
                                                cand.1,
                                                &current.0,
                                                current.1,
                                            ),
                                            None => true,
                                        },
                                    };
                                    if better {
                                        proof {
                                            assert(e == (cur_ref, nodes[nx as int].trace_ref));
                                            jt = j as int;
                                        }
                                        tail = Some(nx);
                                    }
                                },
                                None => {},
                            }
                        },
                        None => {},
                    }
                }
                j = j + 1;
            }
            let own = match self.nodes[cur].duration {
                Some(d) => d,
                None => Duration::zero(),
            };
            let ghost tbg: Option<PathRank> = match tail {
                Some(t) => best@[t as int],
                None => None,
            };
            proof {
                lemma_own_index(nodes, cur as int);
                assert(own@ == dur_of(nodes, cur_ref));
            }
            let mut path: Vec<TraceRef> = Vec::new();
            path.push(cur_ref);
            // With no successor, nothing is added to the node's own time.
            let mut total = own.saturating_add(Duration::zero());
            let mut hops: usize = 1;
            if let Some(t) = tail {
                if let Some(tb) = &best[t] {
                    proof {
                        let tp = tb.2@;
                        assert(forall|i: int| 0 <= i < tp.len() ==> best@[ref_index(nodes, tp[i])] is Some);
                        assert forall|i: int| 0 <= i < tp.len() implies tp[i] != cur_ref by {
                            if tp[i] == cur_ref {
                                assert(has_ref(nodes, tp[i]));
                                assert(ref_index(nodes, tp[i]) == cur as int);
                            }
                        }
                        let whole = seq![cur_ref] + tp;
                        assert(whole.no_duplicates()) by {
                            assert forall|a: int, b: int| 0 <= a < b < whole.len() implies whole[a]
                                != whole[b] by {
                                if a == 0 {
                                    assert(whole[b] == tp[b - 1]);
                                } else {
                                    assert(whole[a] == tp[a - 1] && whole[b] == tp[b - 1]);
                                }
                            }
                        }
                        assert forall|k: int| 0 <= k < whole.len() implies has_ref(nodes, #[trigger] whole[k]) by {
                            if k == 0 {
                                assert(nodes[cur as int].trace_ref == whole[0]);
                            } else {
                                assert(whole[k] == tp[k - 1]);
                            }
                        }
                        lemma_distinct_refs_bounded(whole, nodes);
                    }
                    total = own.saturating_add(tb.0);
                    hops = tb.1 + 1;
                    let mut i: usize = 0;
                    while i < tb.2.len()
                        invariant
                            i <= tb.2@.len(),
                            path@ == seq![cur_ref] + tb.2@.take(i as int),
                        decreases tb.2@.len() - i,
                    {
                        path.push(tb.2[i]);
                        proof {
                            assert(tb.2@.take(i as int + 1) =~= tb.2@.take(i as int).push(tb.2@[i as int]));
                        }
                        i = i + 1;
                    }
                    proof {
                        assert(tb.2@.take(i as int) =~= tb.2@);
                    }
                }
            }
            proof {
                if tail is None {
                    assert(path@ =~= seq![cur_ref] + path_of(tbg));
                }
            }
            let ghost pre_best = best@;
            let ghost entry: PathRank = (total, hops, path);
            in_progress.set(cur, false);
            best.set(cur, Some((total, hops, path)));
            proof {
                assert(best@ == pre_best.update(cur as int, Some(entry)));
                lemma_entry_sums(nodes, cur_ref, tbg, entry);
                let p = path_of(best@[cur as int]);
                assert(p[0] == cur_ref);
                match tail {
                    Some(t) => {
                        let tp = path_of(pre_best[t as int]);
                        assert(p =~= seq![cur_ref] + tp);
                        assert(is_walk(edges, true, p)) by {
                            assert forall|i: int| 0 <= i < p.len() - 1 implies steps_to(
                                edges,
                                true,
                                #[trigger] p[i],
                                p[i + 1],
                            ) by {
                                if i == 0 {
                                    assert(p[1] == tp[0]);
                                } else {
                                    assert(p[i] == tp[i - 1] && p[i + 1] == tp[i]);
                                }
                            }
                        }
                        assert forall|i: int| 0 <= i < p.len() implies has_ref(nodes, #[trigger] p[i])
                            && best@[ref_index(nodes, p[i])] is Some by {
                            if i > 0 {
                                assert(p[i] == tp[i - 1]);
                            }
                        }
                    },
                    None => {
                        assert(p =~= seq![cur_ref]);
                    },
                }
                assert(memo_ok(nodes, edges, best@)) by {
                    assert forall|k: int| 0 <= k < best@.len() && (#[trigger] best@[k]) is Some implies {
                        let q = path_of(best@[k]);
                        &&& q.len() >= 1
                        &&& q[0] == nodes[k].trace_ref
                        &&& hops_of(best@[k]) == q.len()
                        &&& is_walk(edges, true, q)
                        &&& q.no_duplicates()
                        &&& forall|i: int|
                            0 <= i < q.len() ==> has_ref(nodes, #[trigger] q[i]) && best@[ref_index(
                                nodes,
                                q[i],
                            )] is Some
                    } by {
                        if k != cur as int {
                            assert(best@[k] == pre_best[k]);
                            let q = path_of(best@[k]);
                            assert forall|i: int| 0 <= i < q.len() implies has_ref(nodes, #[trigger] q[i])
                                && best@[ref_index(nodes, q[i])] is Some by {
                                assert(pre_best[ref_index(nodes, q[i])] is Some);
                            }
                        }
                    }
                }
                assert(memo_sums(nodes, best@)) by {
                    assert forall|k: int| 0 <= k < best@.len() && (#[trigger] best@[k]) is Some implies nanos_of(best@[k])
                        == walk_nanos(nodes, path_of(best@[k])) by {
                        if k != cur as int {
                            assert(best@[k] == pre_best[k]);
                        }
                    }
                }
                if acyclic(edges) && paths_fit(nodes, edges) {
                    lemma_entry_unbeaten(nodes, edges, pre_best, cur as int, tail, entry);
                    assert forall|k: int| 0 <= k < best@.len() && (#[trigger] best@[k]) is Some implies unbeaten(
                        nodes,
                        edges,
                        best@,
                        k,
                    ) by {
                        if k != cur as int {
                            assert(best@[k] == pre_best[k]);
                            assert(unbeaten(nodes, edges, pre_best, k));
                        }
                    }
                }
                lemma_finish_shape(nodes, edges, before, inp0, start);
                lemma_closed_finish(nodes, edges, pre_best, inp0, best@, cur as int);
                if acyclic(edges) {
                    lemma_entry_ties(nodes, edges, pre_best, cur as int, tail, jt, entry);
                    assert forall|k: int, y: int|
                        0 <= k < nodes.len() && 0 <= y < nodes.len() && (#[trigger] best@[k]) is Some
                            && #[trigger] idx_edge(nodes, edges, k, y) implies best@[y] is Some by {
                        if k != cur as int {
                            assert(best@[k] == pre_best[k]);
                        }
                    }
                }
                lemma_reached_update(nodes, edges, before, pre_best, inp0, best@, in_progress@, before.len() as int);
                lemma_reached_pop(nodes, edges, before, best@, in_progress@);
                assert forall|k: int| 0 <= k < n && old_best[k] is Some implies #[trigger] best@[k] == old_best[k] by {
                    if k == cur as int {
                        assert(pre_best[k] == old_best[k]);
                    } else {
                        assert(best@[k] == pre_best[k]);
                    }
                }
                if acyclic(edges) {
                    lemma_covered_grow(nodes, edges, before, pre_best, best@, before.len() as int);
                    lemma_pop_covered(nodes, edges, before, inp0, best@, start);
                }
            }
        }
        proof {
            lemma_own_index(nodes, start as int);
            assert forall|y: TraceRef|
                #[trigger] reaches(edges, true, nodes[start as int].trace_ref, y) implies has_ref(nodes, y)
                    && best@[ref_index(nodes, y)] is Some by {
                let w = choose|w: Seq<TraceRef>| #[trigger] is_walk(edges, true, w) && w[0] == nodes[start as int].trace_ref && w.last() == y;
                lemma_closed_reaches(nodes, edges, best@, in_progress@, w, w.len() - 1);
            }
        }
        Ghost(touched)
    }

    /// The chain of dependent traces that dominates the pipeline's latency,
    /// producer first.
    ///
    /// Paths are ranked by summed node duration (saturating), ties broken
    /// by hop count, remaining ties by the order successors were recorded
    /// and, between starting nodes, by the order nodes were first recorded. An edge
    /// back into a node still being expanded is ignored rather than looped
    /// on. The result walks recorded edges and never visits a trace twice;
    /// it is empty exactly when the graph has no node. In a graph without
    /// cycles whose walks' summed durations fit in a `Duration`, no walk
    /// ranks above it; every walk from a node recorded before its first
    /// node ranks strictly below it (ties between starting nodes go to the
    /// first-recorded one); and at each trace of it, every walk from a
    /// successor whose edge was recorded before the path's next edge ranks
    /// strictly below the rest of the path (ties between successors go to
    /// the first-recorded edge).
    pub fn critical_path(&self) -> (r: Vec<TraceRef>)
        requires
            self.wf(),
        ensures
            (r@.len() == 0) == (self.node_seq().len() == 0),
            r@.len() > 0 ==> is_walk(self.edge_seq(), true, r@),
            r@.no_duplicates(),
            forall|i: int| 0 <= i < r@.len() ==> has_ref(self.node_seq(), #[trigger] r@[i]),
            acyclic(self.edge_seq()) && paths_fit(self.node_seq(), self.edge_seq()) ==> forall|w: Seq<TraceRef>|
                #[trigger] is_walk(self.edge_seq(), true, w) && has_ref(self.node_seq(), w[0]) ==> !rank_above(
                    walk_total(self.node_seq(), w) as int,
                    w.len() as int,
                    walk_total(self.node_seq(), r@) as int,
                    r@.len() as int,
                ),
            acyclic(self.edge_seq()) && paths_fit(self.node_seq(), self.edge_seq()) ==> forall|
                i: int,
                w: Seq<TraceRef>,
                e1: int,
                e2: int,
            |
                0 <= i < r@.len() - 1 && #[trigger] is_walk(self.edge_seq(), true, w) && #[trigger] edge_pos(
                    self.edge_seq(),
                    r@[i],
                    w[0],
                    e1,
                ) && #[trigger] edge_pos(self.edge_seq(), r@[i], r@[i + 1], e2) && e1 < e2 ==> rank_above(
                    walk_total(self.node_seq(), r@.skip(i + 1)) as int,
                    r@.len() - (i + 1),
                    walk_total(self.node_seq(), w) as int,
                    w.len() as int,
                ),
            acyclic(self.edge_seq()) && paths_fit(self.node_seq(), self.edge_seq()) && r@.len() > 0 ==> forall|w: Seq<TraceRef>|
                #[trigger] is_walk(self.edge_seq(), true, w) && has_ref(self.node_seq(), w[0]) && ref_index(
                    self.node_seq(),
                    w[0],
                ) < ref_index(self.node_seq(), r@[0]) ==> rank_above(
                    walk_total(self.node_seq(), r@) as int,
                    r@.len() as int,
                    walk_total(self.node_seq(), w) as int,
                    w.len() as int,
                ),
    {
        let ghost nodes = self.nodes@;
        let ghost edges = self.edges@;
        let n = self.nodes.len();
        let order = self.recorded_positions();
        let mut best: Vec<Option<PathRank>> = Vec::new();
        let mut in_progress: Vec<bool> = Vec::new();
        let mut i: usize = 0;
        while i < n
            invariant
                n == nodes.len(),
                i <= n,
                best@.len() == i,
                in_progress@.len() == i,
                forall|k: int| 0 <= k < i ==> (#[trigger] best@[k]) is None,
                forall|k: int| 0 <= k < i ==> !(#[trigger] in_progress@[k]),
            decreases n - i,
        {
            best.push(None);
            in_progress.push(false);
            i = i + 1;
        }
        let ghost mut touched: Set<int> = Set::empty();
        proof {
            assert forall|k: int|
                #[trigger] touched.contains(k) <==> (0 <= k < n && (in_progress@[k] || best@[k] is Some)) by {
                if 0 <= k < n {
                    assert(best@[k] is None);
                    assert(!in_progress@[k]);
                }
            }
        }
        let mut i: usize = 0;
        while i < order.len()
            invariant
                self.wf(),
                nodes == self.nodes@,
                edges == self.edges@,
                n == nodes.len(),
                crate::ordering::is_permutation(order@, n as nat),
                i <= order@.len(),
                memo_ok(nodes, edges, best@),
                memo_sums(nodes, best@),
                acyclic(edges) && paths_fit(nodes, edges) ==> memo_optimal(nodes, edges, best@),
                in_progress@.len() == n,
                forall|k: int| 0 <= k < n ==> !(#[trigger] in_progress@[k]),
                memo_closed(nodes, edges, best@, in_progress@),
                acyclic(edges) ==> memo_full(nodes, edges, best@) && memo_ties(nodes, edges, best@),
                forall|i2: int| 0 <= i2 < i ==> (#[trigger] best@[order@[i2] as int]) is Some,
                touched.finite(),
                forall|k: int|
                    #[trigger] touched.contains(k) <==> (0 <= k < n && (in_progress@[k] || best@[k] is Some)),
            decreases order@.len() - i,
        {
            let ghost pre = best@;
            let t = self.longest_from(order[i], &mut best, &mut in_progress, Ghost(touched));
            proof {
                touched = t@;
                assert forall|i2: int| 0 <= i2 < i + 1 implies (#[trigger] best@[order@[i2] as int]) is Some by {
                    if i2 < i {
                        assert(pre[order@[i2] as int] is Some);
                    }
                }
            }
            i = i + 1;
        }
        let mut win: Option<usize> = None;
        let mut i: usize = 0;
        while i < order.len()
            invariant
                n == nodes.len(),
                crate::ordering::is_permutation(order@, n as nat),
                i <= order@.len(),
                best@.len() == n,
                forall|i2: int| 0 <= i2 < order@.len() ==> (#[trigger] best@[order@[i2] as int]) is Some,
                forall|k: int| 0 <= k < order@.len() ==> #[trigger] order@[k] == k,
                match win {
                    Some(w) => w < i && best@[w as int] is Some && forall|k: int|
                        0 <= k < w ==> rank_above(
                            nanos_of(best@[w as int]) as int,
                            hops_of(best@[w as int]),
                            nanos_of(#[trigger] best@[k]) as int,
                            hops_of(best@[k]),
                        ),
                    None => i == 0,
                },
                forall|i2: int|
                    0 <= i2 < i ==> !rank_above(
                        nanos_of(#[trigger] best@[order@[i2] as int]) as int,
                        hops_of(best@[order@[i2] as int]),
                        nanos_of(best@[win->0 as int]) as int,
                        hops_of(best@[win->0 as int]),
                    ),
            decreases order@.len() - i,
        {
            let k = order[i];
            proof {
                assert(best@[order@[i as int] as int] is Some);
                assert(order@[i as int] == i);
                if win is Some {
                    let w = win->0 as int;
                    assert forall|k2: int| 0 <= k2 < i implies !rank_above(
                        nanos_of(#[trigger] best@[k2]) as int,
                        hops_of(best@[k2]),
                        nanos_of(best@[w]) as int,
                        hops_of(best@[w]),
                    ) by {
                        assert(order@[k2] == k2);
                    }
                }
            }
            if let Some(c) = &best[k] {
                let better = match win {
                    None => true,
                    Some(w) => match &best[w] {
                        Some(current) => ranks_above(&c.0, c.1, &current.0, current.1),
                        None => true,
                    },
                };
                if better {
                    win = Some(k);
                }
            }
            i = i + 1;
        }
        let mut out: Vec<TraceRef> = Vec::new();
        if let Some(w) = win {
            if let Some(b) = &best[w] {
                let mut j: usize = 0;
                while j < b.2.len()
                    invariant
                        j <= b.2@.len(),
                        out@ == b.2@.take(j as int),
                    decreases b.2@.len() - j,
                {
                    out.push(b.2[j]);
                    proof {
                        assert(b.2@.take(j as int + 1) =~= b.2@.take(j as int).push(b.2@[j as int]));
                    }
                    j = j + 1;
                }
                proof {
                    assert(b.2@.take(j as int) =~= b.2@);
                    assert(best@[w as int] is Some);
                    assert(path_of(best@[w as int]) == b.2@);
                }
            }
        }
        proof {
            if n > 0 {
                assert(best@[order@[0] as int] is Some);
            }
            if acyclic(edges) && paths_fit(nodes, edges) && n > 0 {
                let wk = win->0 as int;
                assert(out@ == path_of(best@[wk]));
                lemma_winner_unbeaten(nodes, edges, best@, order@, wk, out@);
                lemma_path_ties(nodes, edges, best@, wk, out@);
            }
        }
        out
    }
}

impl Default for TraceGraph {
    /// An empty graph.
    fn default() -> (g: TraceGraph)
        ensures
            g.wf(),
            g.node_seq().len() == 0,
            g.edge_seq().len() == 0,
    {
        TraceGraph::new()
    }
}

} // verus!
