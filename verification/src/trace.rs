//! `Trace<T>`: a value together with the causal chain that produced it.

use vstd::prelude::*;
use crate::binary64::{self, Binary64};
use crate::cost::{self, StepCost};
use crate::error::TraceErr;
use crate::ids;
use crate::ordering::{self, RankKey};
use crate::step::{Branch, Step};
use crate::text;

verus! {

/// A stable reference to a completed trace, safe to store in a task or a
/// checkpoint. Holds the trace's identifier.
#[derive(Debug, Clone, Copy, PartialEq, Eq, Hash)]
pub struct TraceRef(pub u128);

/// The text a trace reference renders as: `trace::` followed by the
/// hyphenated identifier.
pub open spec fn trace_ref_text(r: TraceRef) -> Seq<char> {
    "trace::"@ + ids::hyphenated_spec(r.0)
}

impl TraceRef {
    /// `trace::<uuid>`, the form a reference is displayed in.
    pub fn to_text(&self) -> (s: String)
        ensures
            s@ == trace_ref_text(*self),
    {
        let tail = ids::hyphenated(self.0);
        text::concat("trace::", tail.as_str())
    }
}

/// The values a sequence of references points at.
pub open spec fn derefs<A>(s: Seq<&A>) -> Seq<A> {
    s.map_values(|a: &A| *a)
}

/// Pushing a reference pushes the value it points at.
pub proof fn lemma_derefs_push<A>(s: Seq<&A>, a: &A)
    ensures
        derefs(s.push(a)) == derefs(s).push(*a),
{
    assert(derefs(s.push(a)) =~= derefs(s).push(*a));
}

/// The steps of `steps` whose outcome is `Rejected`, in order.
pub open spec fn rejected_of(steps: Seq<Step>) -> Seq<Step> {
    steps.filter(|s: Step| s.rejected_spec())
}

/// True if `s` recorded a confidence strictly below `threshold` (IEEE `<`).
pub open spec fn scored_below(s: Step, threshold: Binary64) -> bool {
    match s.confidence {
        Some(c) => binary64::lt(c, threshold),
        None => false,
    }
}

/// The steps of `steps` scored below `threshold`, in order.
pub open spec fn below_of(steps: Seq<Step>, threshold: Binary64) -> Seq<Step> {
    steps.filter(|s: Step| scored_below(s, threshold))
}

/// Every branch of every step, step by step.
pub open spec fn branches_of(steps: Seq<Step>) -> Seq<Branch> {
    steps.map_values(|s: Step| s.branches@).flatten()
}

/// How long a step took, in nanoseconds; an untimed step counts as zero.
pub open spec fn duration_nanos(s: Step) -> nat {
    match s.duration {
        Some(d) => d@,
        None => 0,
    }
}

/// The ranking key of `bottlenecks`: the step's duration.
pub open spec fn slowness_key(s: Step) -> RankKey {
    (duration_nanos(s) as i128, 0u128)
}

/// The `bottlenecks` key of every step.
pub open spec fn slowness_keys(steps: Seq<Step>) -> Seq<RankKey> {
    steps.map_values(|s: Step| slowness_key(s))
}

/// A dollar figure's position on the real line, as `binary64::order_key`
/// gives it; no figure, or a `NaN` one, sits at `0.0`.
pub open spec fn dollars_key(c: StepCost) -> int {
    match c.dollars {
        Some(d) => if binary64::is_nan(d) {
            0
        } else {
            binary64::order_key(d)
        },
        None => 0,
    }
}

/// The ranking key of `priciest_steps`: recorded dollars, then total tokens.
/// A step with no cost ranks below every step that recorded one.
pub open spec fn price_key(s: Step) -> RankKey {
    match s.cost {
        Some(c) => (
            dollars_key(c) as i128,
            crate::cost::saturating_sum(c.input_tokens, c.output_tokens) as u128,
        ),
        None => (i128::MIN, 0u128),
    }
}

/// The `priciest_steps` key of every step.
pub open spec fn price_keys(steps: Seq<Step>) -> Seq<RankKey> {
    steps.map_values(|s: Step| price_key(s))
}

/// The result `into_result` gives: the value, else the recorded error,
/// else `Other("empty trace")`.
pub open spec fn result_spec<T>(value: Option<T>, error: Option<TraceErr>, r: Result<T, TraceErr>) -> bool {
    match value {
        Some(v) => r == Ok::<T, TraceErr>(v),
        None => match error {
            Some(e) => r == Err::<T, TraceErr>(e),
            None => r matches Err(e) && e.is_other_with("empty trace"@),
        },
    }
}

/// Input and output tokens summed, in execution order, over every step
/// that recorded a cost; each sum saturates at `u64::MAX`, as adding two
/// `StepCost`s does.
pub open spec fn token_totals_of(steps: Seq<Step>) -> (u64, u64)
    decreases steps.len(),
{
    if steps.len() == 0 {
        (0, 0)
    } else {
        let before = token_totals_of(steps.drop_last());
        match steps.last().cost {
            Some(c) => (
                cost::saturating_sum(before.0, c.input_tokens),
                cost::saturating_sum(before.1, c.output_tokens),
            ),
            None => before,
        }
    }
}

/// The core type: every agent step returns a `Trace<T>` rather than a bare
/// `T`. It carries the value (or the error), and the full causal chain of
/// steps that led to it.
#[derive(Debug, Clone)]
pub struct Trace<T> {
    /// Unique identifier, exposed as a stable [`TraceRef`] by `trace_ref`.
    pub id: u128,
    value: Option<T>,
    error: Option<TraceErr>,
    steps: Vec<Step>,
}

impl<T> Trace<T> {
    /// The trace's identifier.
    pub closed spec fn ident(self) -> u128 {
        self.id
    }

    /// The carried value, if the trace succeeded.
    pub closed spec fn value_spec(self) -> Option<T> {
        self.value
    }

    /// The recorded error, if the trace failed.
    pub closed spec fn error_spec(self) -> Option<TraceErr> {
        self.error
    }

    /// The causal chain, in execution order.
    pub closed spec fn chain(self) -> Seq<Step> {
        self.steps@
    }

    /// A successful trace carrying `value`, with a fresh identifier and an
    /// empty causal chain.
    pub fn new(value: T) -> (t: Trace<T>)
        ensures
            t.value_spec() == Some(value),
            t.error_spec() is None,
            t.chain().len() == 0,
            ids::is_random_uuid(t.ident()),
    {
        Trace { id: ids::fresh_id(), value: Some(value), error: None, steps: Vec::new() }
    }

    /// A failed trace carrying `err`, with a fresh identifier and an empty
    /// causal chain.
    pub fn failed(err: TraceErr) -> (t: Trace<T>)
        ensures
            t.value_spec() is None,
            t.error_spec() == Some(err),
            t.chain().len() == 0,
            ids::is_random_uuid(t.ident()),
    {
        Trace { id: ids::fresh_id(), value: None, error: Some(err), steps: Vec::new() }
    }

    /// Merge two traces: the causal chains are concatenated, and the
    /// left-hand side's identifier, value and error are kept.
    pub fn merge(lhs: Trace<T>, rhs: Trace<T>) -> (t: Trace<T>)
        ensures
            t.ident() == lhs.ident(),
            t.value_spec() == lhs.value_spec(),
            t.error_spec() == lhs.error_spec(),
            t.chain() == lhs.chain() + rhs.chain(),
    {
        let mut lhs = lhs;
        let mut rest = rhs.steps;
        lhs.steps.append(&mut rest);
        lhs
    }

    /// Borrow the carried value, if the trace succeeded.
    pub fn value(&self) -> (r: Option<&T>)
        ensures
            match r {
                Some(v) => self.value_spec() == Some(*v),
                None => self.value_spec() is None,
            },
    {
        self.value.as_ref()
    }

    /// Take the carried value, if any.
    pub fn into_value(self) -> (r: Option<T>)
        ensures
            r == self.value_spec(),
    {
        self.value
    }

    /// Borrow the recorded error, if the trace failed.
    pub fn error(&self) -> (r: Option<&TraceErr>)
        ensures
            match r {
                Some(e) => self.error_spec() == Some(*e),
                None => self.error_spec() is None,
            },
    {
        self.error.as_ref()
    }

    /// True iff the trace carries a value.
    pub fn is_ok(&self) -> (b: bool)
        ensures
            b == (self.value_spec() is Some),
    {
        self.value.is_some()
    }

    /// This trace's identifier as a [`TraceRef`].
    pub fn trace_ref(&self) -> (r: TraceRef)
        ensures
            r == TraceRef(self.ident()),
    {
        TraceRef(self.id)
    }

    /// Append a step to the causal chain.
    pub fn push_step(&mut self, step: Step)
        ensures
            final(self).chain() == old(self).chain().push(step),
            final(self).ident() == old(self).ident(),
            final(self).value_spec() == old(self).value_spec(),
            final(self).error_spec() == old(self).error_spec(),
    {
        self.steps.push(step);
    }

    /// Every step, in the order it was executed.
    pub fn causal_chain(&self) -> (r: &[Step])
        ensures
            r@ == self.chain(),
    {
        self.steps.as_slice()
    }

    /// The token side of the trace's total cost: input and output tokens
    /// summed over every step that recorded a cost, each saturating at
    /// `u64::MAX`. (The dollar side is a binary64 sum, left to callers.)
    pub fn total_tokens(&self) -> (r: (u64, u64))
        ensures
            r == token_totals_of(self.chain()),
    {
        let mut input: u64 = 0;
        let mut output: u64 = 0;
        let mut i: usize = 0;
        while i < self.steps.len()
            invariant
                i <= self.steps@.len(),
                (input, output) == token_totals_of(self.steps@.take(i as int)),
            decreases self.steps@.len() - i,
        {
            proof {
                assert(self.steps@.take(i as int + 1).drop_last() =~= self.steps@.take(i as int));
            }
            if let Some(c) = &self.steps[i].cost {
                input = input.saturating_add(c.input_tokens);
                output = output.saturating_add(c.output_tokens);
            }
            i = i + 1;
        }
        proof {
            assert(self.steps@.take(i as int) =~= self.steps@);
        }
        (input, output)
    }

    /// The steps that were explicitly rejected, in execution order.
    pub fn rejected_branches(&self) -> (r: Vec<&Step>)
        ensures
            derefs(r@) == rejected_of(self.chain()),
    {
        let mut out: Vec<&Step> = Vec::new();
        let mut i: usize = 0;
        while i < self.steps.len()
            invariant
                i <= self.steps@.len(),
                derefs(out@) == rejected_of(self.steps@.take(i as int)),
            decreases self.steps@.len() - i,
        {
            let s = &self.steps[i];
            proof {
                assert(self.steps@.take(i as int + 1).drop_last() =~= self.steps@.take(i as int));
                reveal(Seq::filter);
            }
            if s.is_rejected() {
                out.push(s);
            }
            i = i + 1;
        }
        proof {
            assert(self.steps@.take(i as int) =~= self.steps@);
        }
        out
    }

    /// Every branch recorded on any step, step by step.
    pub fn all_branches(&self) -> (r: Vec<&Branch>)
        ensures
            derefs(r@) == branches_of(self.chain()),
    {
        let mut out: Vec<&Branch> = Vec::new();
        let mut i: usize = 0;
        while i < self.steps.len()
            invariant
                i <= self.steps@.len(),
                derefs(out@) == branches_of(self.steps@.take(i as int)),
            decreases self.steps@.len() - i,
        {
            let bs = &self.steps[i].branches;
            let ghost before = derefs(out@);
            let mut j: usize = 0;
            while j < bs.len()
                invariant
                    j <= bs@.len(),
                    derefs(out@) == before + bs@.take(j as int),
                decreases bs@.len() - j,
            {
                let ghost prev = out@;
                out.push(&bs[j]);
                proof {
                    lemma_derefs_push(prev, &bs@[j as int]);
                    assert(bs@.take(j as int + 1) =~= bs@.take(j as int).push(bs@[j as int]));
                }
                j = j + 1;
            }
            proof {
                let f = |s: Step| s.branches@;
                let pre = self.steps@.take(i as int);
                assert(self.steps@.take(i as int + 1) =~= pre.push(self.steps@[i as int]));
                assert(pre.push(self.steps@[i as int]).map_values(f) =~= pre.map_values(f).push(
                    bs@,
                ));
                pre.map_values(f).lemma_flatten_push(bs@);
                assert(bs@.take(j as int) =~= bs@);
            }
            i = i + 1;
        }
        proof {
            assert(self.steps@.take(i as int) =~= self.steps@);
        }
        out
    }

    /// The steps, slowest first; untimed steps count as zero and equal
    /// durations keep their execution order.
    pub fn bottlenecks(&self) -> (r: Vec<&Step>)
        ensures
            r@.len() == self.chain().len(),
            exists|p: Seq<usize>|
                #[trigger] ordering::is_stable_ranking(
                    slowness_keys(self.chain()),
                    p,
                )
                    && derefs(r@) == p.map_values(|k: usize| self.chain()[k as int]),
    {
        let mut keys: Vec<RankKey> = Vec::new();
        let mut i: usize = 0;
        while i < self.steps.len()
            invariant
                i <= self.steps@.len(),
                keys@ == slowness_keys(self.steps@.take(i as int)),
            decreases self.steps@.len() - i,
        {
            let nanos: u128 = match self.steps[i].duration {
                Some(d) => d.as_nanos(),
                None => 0,
            };
            proof {
                assert(nanos == duration_nanos(self.steps@[i as int]));
                assert(crate::duration::max_nanos() < 0x7fff_ffff_ffff_ffff_ffff_ffff_ffff_ffff);
            }
            keys.push((nanos as i128, 0u128));
            proof {
                assert(self.steps@.take(i as int + 1) =~= self.steps@.take(i as int).push(
                    self.steps@[i as int],
                ));
            }
            i = i + 1;
        }
        proof {
            assert(self.steps@.take(i as int) =~= self.steps@);
        }
        let p = ordering::rank_desc(&keys);
        self.pick(&p)
    }

    /// The steps, priciest first: recorded dollars descending (a missing or
    /// `NaN` figure counting as zero), then total tokens descending; steps
    /// with no recorded cost come last, and equal costs keep their execution
    /// order.
    pub fn priciest_steps(&self) -> (r: Vec<&Step>)
        ensures
            r@.len() == self.chain().len(),
            exists|p: Seq<usize>|
                #[trigger] ordering::is_stable_ranking(
                    price_keys(self.chain()),
                    p,
                )
                    && derefs(r@) == p.map_values(|k: usize| self.chain()[k as int]),
    {
        let mut keys: Vec<RankKey> = Vec::new();
        let mut i: usize = 0;
        while i < self.steps.len()
            invariant
                i <= self.steps@.len(),
                keys@ == price_keys(self.steps@.take(i as int)),
            decreases self.steps@.len() - i,
        {
            let key: RankKey = match self.steps[i].cost {
                Some(c) => {
                    let dk: i128 = match c.dollars {
                        Some(d) => if binary64::nan(d) {
                            0
                        } else {
                            binary64::order_value(d)
                        },
                        None => 0,
                    };
                    (dk, c.total_tokens() as u128)
                },
                None => (i128::MIN, 0u128),
            };
            keys.push(key);
            proof {
                assert(self.steps@.take(i as int + 1) =~= self.steps@.take(i as int).push(
                    self.steps@[i as int],
                ));
            }
            i = i + 1;
        }
        proof {
            assert(self.steps@.take(i as int) =~= self.steps@);
        }
        let p = ordering::rank_desc(&keys);
        self.pick(&p)
    }

    /// The steps at the positions `p` lists, in that order.
    fn pick(&self, p: &Vec<usize>) -> (r: Vec<&Step>)
        requires
            forall|i: int| 0 <= i < p@.len() ==> p@[i] < self.steps@.len(),
        ensures
            r@.len() == p@.len(),
            derefs(r@) == p@.map_values(|k: usize| self.chain()[k as int]),
    {
        let mut out: Vec<&Step> = Vec::new();
        let mut i: usize = 0;
        while i < p.len()
            invariant
                i <= p@.len(),
                out@.len() == i,
                forall|j: int| 0 <= j < p@.len() ==> p@[j] < self.steps@.len(),
                derefs(out@) == p@.take(i as int).map_values(|k: usize| self.chain()[k as int]),
            decreases p@.len() - i,
        {
            let ghost prev = out@;
            out.push(&self.steps[p[i]]);
            proof {
                lemma_derefs_push(prev, &self.steps@[p@[i as int] as int]);
                assert(p@.take(i as int + 1) =~= p@.take(i as int).push(p@[i as int]));
            }
            i = i + 1;
        }
        proof {
            assert(p@.take(i as int) =~= p@);
        }
        out
    }

    /// Steps whose confidence is below the default threshold `0.7`.
    pub fn low_confidence(&self) -> (r: Vec<&Step>)
        ensures
            derefs(r@) == below_of(self.chain(), binary64::SEVEN_TENTHS),
    {
        self.low_confidence_below(binary64::SEVEN_TENTHS)
    }

    /// Steps whose confidence is strictly below `threshold`, in execution
    /// order; steps with no recorded confidence never count.
    pub fn low_confidence_below(&self, threshold: Binary64) -> (r: Vec<&Step>)
        ensures
            derefs(r@) == below_of(self.chain(), threshold),
    {
        let mut out: Vec<&Step> = Vec::new();
        let mut i: usize = 0;
        while i < self.steps.len()
            invariant
                i <= self.steps@.len(),
                derefs(out@) == below_of(self.steps@.take(i as int), threshold),
            decreases self.steps@.len() - i,
        {
            let s = &self.steps[i];
            proof {
                assert(self.steps@.take(i as int + 1).drop_last() =~= self.steps@.take(i as int));
                reveal(Seq::filter);
            }
            let below = match s.confidence {
                Some(c) => binary64::less_than(c, threshold),
                None => false,
            };
            if below {
                out.push(s);
            }
            i = i + 1;
        }
        proof {
            assert(self.steps@.take(i as int) =~= self.steps@);
        }
        out
    }

    /// The trace as a `Result`: the value if it succeeded, else its error,
    /// else `Other("empty trace")`.
    pub fn into_result(self) -> (r: Result<T, TraceErr>)
        ensures
            result_spec(self.value_spec(), self.error_spec(), r),
    {
        match self.value {
            Some(v) => Ok(v),
            None => match self.error {
                Some(e) => Err(e),
                None => Err(TraceErr::other("empty trace")),
            },
        }
    }
}

} // verus!
