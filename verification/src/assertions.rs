//! Assertions on the *shape* of an agent execution — which steps ran, how
//! confident they were, who the work was delegated to — not just its final
//! output.

use vstd::prelude::*;
use crate::agent::{names, RunOutcome, SpawnOutcome};
use crate::binary64::{self, Binary64};
use crate::step::Step;
use crate::trace::Trace;

verus! {

/// Anything whose execution shape can be asserted on: it carries a trace
/// and the delegation chain of the context it ran under.
pub trait TraceOutcome<O> {
    spec fn trace_spec(&self) -> Trace<O>;

    spec fn chain_spec(&self) -> Seq<String>;

    fn trace(&self) -> (t: &Trace<O>)
        ensures
            *t == self.trace_spec(),
    ;

    fn delegation_chain(&self) -> (c: &[String])
        ensures
            c@ == self.chain_spec(),
    ;
}

impl<O> TraceOutcome<O> for SpawnOutcome<O> {
    open spec fn trace_spec(&self) -> Trace<O> {
        self.trace
    }

    open spec fn chain_spec(&self) -> Seq<String> {
        self.context.delegation_chain@
    }

    fn trace(&self) -> (t: &Trace<O>) {
        &self.trace
    }

    fn delegation_chain(&self) -> (c: &[String]) {
        self.context.delegation_chain.as_slice()
    }
}

impl<O> TraceOutcome<O> for RunOutcome<O> {
    open spec fn trace_spec(&self) -> Trace<O> {
        self.trace
    }

    open spec fn chain_spec(&self) -> Seq<String> {
        self.context.delegation_chain@
    }

    fn trace(&self) -> (t: &Trace<O>) {
        &self.trace
    }

    fn delegation_chain(&self) -> (c: &[String]) {
        self.context.delegation_chain.as_slice()
    }
}

/// What every [`TraceOutcome`] owes its readers: the trace it exposes
/// reflects either a recorded step or a recorded error. True if `outcome`
/// meets it. (That `delegation_chain` gives the same chain on every call is
/// already the trait's contract: each call returns `chain_spec`.)
pub fn assert_trace_outcome_contract<O, T: TraceOutcome<O>>(outcome: &T) -> (ok: bool)
    ensures
        ok == (outcome.trace_spec().chain().len() > 0 || outcome.trace_spec().error_spec() is Some),
{
    let trace = outcome.trace();
    trace.causal_chain().len() > 0 || trace.error().is_some()
}

/// Every way a shape assertion can fail. The step failures carry the
/// causal chain that was actually recorded, as each step's name and
/// confidence, so a report can show it without re-running anything.
#[derive(Debug, Clone, PartialEq)]
pub enum TraceAssertionError {
    /// No step with this name ran.
    MissingStep { name: String, chain: Vec<(String, Option<Binary64>)> },
    /// The named step's confidence (if it ran and recorded one) is not
    /// below the threshold.
    ConfidenceNotBelow {
        name: String,
        actual: Option<Binary64>,
        threshold: Binary64,
        chain: Vec<(String, Option<Binary64>)>,
    },
    /// The agent never appears in the delegation chain.
    DidNotEscalateTo { expected: String, actual_chain: Vec<String> },
    /// A step with this name ran though it never should have.
    UnexpectedStep { name: String, chain: Vec<(String, Option<Binary64>)> },
}

/// Each step's name and confidence, in order.
pub open spec fn chain_entries(steps: Seq<Step>) -> Seq<(Seq<char>, Option<Binary64>)> {
    steps.map_values(|s: Step| (s.name@, s.confidence))
}

/// The text view of a list of (name, confidence) entries.
pub open spec fn entry_views(v: Seq<(String, Option<Binary64>)>) -> Seq<(Seq<char>, Option<Binary64>)> {
    v.map_values(|e: (String, Option<Binary64>)| (e.0@, e.1))
}

/// Each step's name and confidence, in order.
fn chain_of(steps: &[Step]) -> (r: Vec<(String, Option<Binary64>)>)
    ensures
        entry_views(r@) == chain_entries(steps@),
{
    let mut out: Vec<(String, Option<Binary64>)> = Vec::new();
    let mut i: usize = 0;
    while i < steps.len()
        invariant
            i <= steps@.len(),
            entry_views(out@) == chain_entries(steps@.take(i as int)),
        decreases steps@.len() - i,
    {
        let ghost prev = out@;
        out.push((steps[i].name.clone(), steps[i].confidence));
        proof {
            assert(steps@.take(i as int + 1) =~= steps@.take(i as int).push(steps@[i as int]));
            assert(entry_views(out@) =~= entry_views(prev).push((steps@[i as int].name@, steps@[i as int].confidence)));
            assert(chain_entries(steps@.take(i as int + 1)) =~= chain_entries(steps@.take(i as int)).push(
                (steps@[i as int].name@, steps@[i as int].confidence),
            ));
        }
        i = i + 1;
    }
    proof {
        assert(steps@.take(i as int) =~= steps@);
    }
    out
}

/// Some step in `steps` is named `name`.
pub open spec fn has_step(steps: Seq<Step>, name: Seq<char>) -> bool {
    exists|i: int| 0 <= i < steps.len() && (#[trigger] steps[i]).name@ == name
}

/// The first step named `name` (meaningful when `has_step`).
pub open spec fn first_named(steps: Seq<Step>, name: Seq<char>) -> int {
    choose|i: int|
        0 <= i < steps.len() && (#[trigger] steps[i]).name@ == name && forall|j: int|
            0 <= j < i ==> (#[trigger] steps[j]).name@ != name
}

/// The position of the first step named `name`, if any.
fn find_step(steps: &[Step], name: &str) -> (r: Option<usize>)
    ensures
        match r {
            Some(i) => i < steps@.len() && steps@[i as int].name@ == name@ && forall|j: int|
                0 <= j < i ==> (#[trigger] steps@[j]).name@ != name@,
            None => !has_step(steps@, name@),
        },
{
    let wanted = name.to_owned();
    let mut i: usize = 0;
    while i < steps.len()
        invariant
            wanted@ == name@,
            i <= steps@.len(),
            forall|j: int| 0 <= j < i ==> (#[trigger] steps@[j]).name@ != name@,
        decreases steps@.len() - i,
    {
        if steps[i].name == wanted {
            return Some(i);
        }
        i = i + 1;
    }
    None
}

/// Assert the causal chain contains a step named `name`.
pub fn contains_step<O, T: TraceOutcome<O>>(outcome: &T, name: &str) -> (r: Result<(), TraceAssertionError>)
    ensures
        has_step(outcome.trace_spec().chain(), name@) <==> r is Ok,
        r matches Err(e) ==> e matches TraceAssertionError::MissingStep { name: n, chain: c } && n@ == name@
            && entry_views(c@) == chain_entries(outcome.trace_spec().chain()),
{
    let steps = outcome.trace().causal_chain();
    match find_step(steps, name) {
        Some(_) => Ok(()),
        None => Err(TraceAssertionError::MissingStep { name: name.to_owned(), chain: chain_of(steps) }),
    }
}

/// Assert the causal chain does not contain a step named `name`.
pub fn never_step<O, T: TraceOutcome<O>>(outcome: &T, name: &str) -> (r: Result<(), TraceAssertionError>)
    ensures
        !has_step(outcome.trace_spec().chain(), name@) <==> r is Ok,
        r matches Err(e) ==> e matches TraceAssertionError::UnexpectedStep { name: n, chain: c } && n@ == name@
            && entry_views(c@) == chain_entries(outcome.trace_spec().chain()),
{
    let steps = outcome.trace().causal_chain();
    match find_step(steps, name) {
        Some(_) => Err(TraceAssertionError::UnexpectedStep { name: name.to_owned(), chain: chain_of(steps) }),
        None => Ok(()),
    }
}

/// The confidence recorded by the first step named `name`, if that step
/// exists and recorded one.
pub open spec fn named_confidence(steps: Seq<Step>, name: Seq<char>) -> Option<Binary64> {
    if has_step(steps, name) {
        steps[first_named(steps, name)].confidence
    } else {
        None
    }
}

/// Assert the first step named `name` recorded a confidence strictly below
/// `threshold`.
pub fn confidence_below<O, T: TraceOutcome<O>>(outcome: &T, name: &str, threshold: Binary64) -> (r: Result<(), TraceAssertionError>)
    ensures
        ({
            let c = named_confidence(outcome.trace_spec().chain(), name@);
            &&& r is Ok <==> (c matches Some(v) && binary64::lt(v, threshold))
            &&& r matches Err(e) ==> e matches TraceAssertionError::ConfidenceNotBelow {
                name: n,
                actual: a,
                threshold: t,
                chain: ch,
            } && n@ == name@ && a == c && t == threshold && entry_views(ch@) == chain_entries(
                outcome.trace_spec().chain(),
            )
        }),
{
    let steps = outcome.trace().causal_chain();
    let found = find_step(steps, name);
    proof {
        match found {
            Some(i) => {
                let f = first_named(steps@, name@);
                assert(has_step(steps@, name@));
                if f != i as int {
                    if f < i as int {
                        assert(steps@[f].name@ != name@);
                    } else {
                        assert(steps@[i as int].name@ != name@);
                    }
                }
            },
            None => {},
        }
    }
    let actual: Option<Binary64> = match found {
        Some(i) => steps[i].confidence,
        None => None,
    };
    match actual {
        Some(c) => {
            if binary64::less_than(c, threshold) {
                return Ok(());
            }
        },
        None => {},
    }
    Err(TraceAssertionError::ConfidenceNotBelow { name: name.to_owned(), actual, threshold, chain: chain_of(steps) })
}

/// Assert `agent_name` appears in the delegation chain.
pub fn escalates_to<O, T: TraceOutcome<O>>(outcome: &T, agent_name: &str) -> (r: Result<(), TraceAssertionError>)
    ensures
        names(outcome.chain_spec()).contains(agent_name@) <==> r is Ok,
        r matches Err(e) ==> e matches TraceAssertionError::DidNotEscalateTo {
            expected: x,
            actual_chain: c,
        } && x@ == agent_name@ && names(c@) == names(outcome.chain_spec()),
{
    let chain = outcome.delegation_chain();
    let wanted = agent_name.to_owned();
    let mut i: usize = 0;
    while i < chain.len()
        invariant
            wanted@ == agent_name@,
            chain@ == outcome.chain_spec(),
            i <= chain@.len(),
            forall|j: int| 0 <= j < i ==> (#[trigger] chain@[j])@ != agent_name@,
        decreases chain@.len() - i,
    {
        if chain[i] == wanted {
            proof {
                assert(names(chain@)[i as int] == agent_name@);
            }
            return Ok(());
        }
        i = i + 1;
    }
    proof {
        assert forall|j: int| 0 <= j < names(chain@).len() implies names(chain@)[j] != agent_name@ by {
            assert(chain@[j]@ != agent_name@);
        }
    }
    let mut copy: Vec<String> = Vec::new();
    let mut k: usize = 0;
    while k < chain.len()
        invariant
            k <= chain@.len(),
            names(copy@) == names(chain@.take(k as int)),
        decreases chain@.len() - k,
    {
        let ghost prev = copy@;
        copy.push(chain[k].clone());
        proof {
            assert(chain@.take(k as int + 1) =~= chain@.take(k as int).push(chain@[k as int]));
            assert(names(chain@.take(k as int + 1)) =~= names(chain@.take(k as int)).push(
                chain@[k as int]@,
            ));
            assert(names(copy@) =~= names(prev).push(chain@[k as int]@));
        }
        k = k + 1;
    }
    proof {
        assert(chain@.take(k as int) =~= chain@);
    }
    Err(TraceAssertionError::DidNotEscalateTo { expected: wanted, actual_chain: copy })
}

} // verus!
