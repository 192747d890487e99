//! Design-by-contract for a single agent step: declared checks on a step's
//! input and output, whose violations become named `ContractViolated`
//! errors rather than silently bad output.

use vstd::prelude::*;
use vstd::string::StringExecFns;
use crate::error::{self, TraceErr};
use crate::ids;
use crate::step::{Step, StepOutcome};
use crate::text;

verus! {

/// A condition on a value: `Ok` if it holds, else why not.
pub trait Check<T>: Send + Sync {
    /// The check can be run on every value.
    spec fn total(&self) -> bool;

    /// `r` is an answer this check can give for `value`.
    spec fn answers(&self, value: &T, r: Result<(), String>) -> bool;

    /// Check `value`.
    fn check(&self, value: &T) -> (r: Result<(), String>)
        requires
            self.total(),
        ensures
            self.answers(value, r),
    ;
}

impl<T, F: Fn(&T) -> Result<(), String> + Send + Sync> Check<T> for F {
    /// The closure accepts every value.
    open spec fn total(&self) -> bool {
        forall|v: &T| #[trigger] call_requires(*self, (v,))
    }

    /// An answer the closure can return for `value`.
    open spec fn answers(&self, value: &T, r: Result<(), String>) -> bool {
        call_ensures(*self, (value,), r)
    }

    fn check(&self, value: &T) -> (r: Result<(), String>) {
        assert(call_requires(*self, (value,)));
        (self)(value)
    }
}

/// The message a violated check produces: the kind of condition, a colon,
/// and the reason the check gave.
pub open spec fn violation_message(kind: Seq<char>, why: Seq<char>) -> Seq<char> {
    kind + ": "@ + why
}

/// `r` is what checking a `kind` condition can answer: `Ok`, or a
/// `ContractViolated` whose message is `kind: ` followed by a reason.
pub open spec fn is_verdict(r: Result<(), TraceErr>, kind: Seq<char>) -> bool {
    match r {
        Ok(()) => true,
        Err(TraceErr::ContractViolated { message }) => {
            let head = kind + ": "@;
            message@.len() >= head.len() && message@.take(head.len() as int) == head
        },
        Err(_) => false,
    }
}

/// `r` is the contract outcome for the check's answer `outcome`: `Ok`
/// stays `Ok`; a reason `why` becomes `ContractViolated` with message
/// `kind: why`.
pub open spec fn outcome_of(kind: Seq<char>, outcome: Result<(), String>, r: Result<(), TraceErr>) -> bool {
    match outcome {
        Ok(()) => r is Ok,
        Err(why) => r matches Err(TraceErr::ContractViolated { message }) && message@
            == violation_message(kind, why@),
    }
}

/// Turn a check's answer into a contract outcome: `Ok` stays `Ok`; a
/// reason `why` becomes `ContractViolated` with message `kind: why`.
pub fn violation(kind: &str, outcome: Result<(), String>) -> (r: Result<(), TraceErr>)
    ensures
        is_verdict(r, kind@),
        outcome_of(kind@, outcome, r),
{
    match outcome {
        Ok(()) => Ok(()),
        Err(why) => {
            let mut message = text::concat(kind, ": ");
            message.append(why.as_str());
            proof {
                let head = kind@ + ": "@;
                assert(message@.take(head.len() as int) =~= head);
            }
            Err(TraceErr::ContractViolated { message })
        },
    }
}

/// A contract on one step: an optional precondition on its input and an
/// optional postcondition on its output.
#[verifier::reject_recursive_types(I)]
#[verifier::reject_recursive_types(O)]
pub struct Contract<I, O> {
    pre: Option<Box<dyn Check<I>>>,
    post: Option<Box<dyn Check<O>>>,
}

impl<I, O> Contract<I, O> {
    /// Every declared check can be run on every value.
    #[verifier::type_invariant]
    spec fn checks_total(self) -> bool {
        &&& match self.pre {
            Some(c) => c.total(),
            None => true,
        }
        &&& match self.post {
            Some(c) => c.total(),
            None => true,
        }
    }

    /// A precondition has been declared.
    pub closed spec fn declares_pre(self) -> bool {
        self.pre is Some
    }

    /// A postcondition has been declared.
    pub closed spec fn declares_post(self) -> bool {
        self.post is Some
    }

    /// `r` is what checking `input` against the precondition can answer:
    /// `Ok` when none is declared, else the outcome of an answer the
    /// declared check can give for `input`.
    pub closed spec fn pre_answer(self, input: &I, r: Result<(), TraceErr>) -> bool {
        match self.pre {
            Some(c) => exists|why: Result<(), String>| #[trigger] c.answers(input, why) && outcome_of(
                "precondition"@,
                why,
                r,
            ),
            None => r is Ok,
        }
    }

    /// `r` is what checking `output` against the postcondition can answer:
    /// `Ok` when none is declared, else the outcome of an answer the
    /// declared check can give for `output`.
    pub closed spec fn post_answer(self, output: &O, r: Result<(), TraceErr>) -> bool {
        match self.post {
            Some(c) => exists|why: Result<(), String>| #[trigger] c.answers(output, why) && outcome_of(
                "postcondition"@,
                why,
                r,
            ),
            None => r is Ok,
        }
    }

    /// A contract that checks nothing.
    pub fn new() -> (c: Contract<I, O>)
        ensures
            !c.declares_pre(),
            !c.declares_post(),
    {
        Contract { pre: None, post: None }
    }

    /// Builder: declare what must hold of the step's input, replacing any
    /// earlier precondition. The postcondition is kept. `check` must accept
    /// every input, as every closure without a precondition does.
    pub fn pre<F>(self, check: F) -> (c: Contract<I, O>)
        where
            F: Fn(&I) -> Result<(), String> + Send + Sync + 'static,
        requires
            forall|i: &I| #[trigger] call_requires(check, (i,)),
        ensures
            c.declares_pre(),
            c.declares_post() == self.declares_post(),
            forall|i: &I, r: Result<(), TraceErr>|
                #[trigger] c.pre_answer(i, r) == exists|why: Result<(), String>|
                    #[trigger] check.answers(i, why) && outcome_of("precondition"@, why, r),
            forall|o: &O, r: Result<(), TraceErr>|
                #[trigger] c.post_answer(o, r) == self.post_answer(o, r),
    {
        proof {
            use_type_invariant(&self);
        }
        let boxed: Box<dyn Check<I>> = Box::new(check);
        let c = Contract { pre: Some(boxed), post: self.post };
        proof {
            assert forall|i: &I, r: Result<(), TraceErr>|
                #[trigger] c.pre_answer(i, r) == exists|why: Result<(), String>|
                    #[trigger] check.answers(i, why) && outcome_of("precondition"@, why, r) by {
                let b = c.pre->0;
                if c.pre_answer(i, r) {
                    let why = choose|why: Result<(), String>| #[trigger] b.answers(i, why) && outcome_of("precondition"@, why, r);
                    assert(check.answers(i, why) == b.answers(i, why));
                }
                if exists|why: Result<(), String>| #[trigger] check.answers(i, why) && outcome_of("precondition"@, why, r) {
                    let why = choose|why: Result<(), String>| #[trigger] check.answers(i, why) && outcome_of("precondition"@, why, r);
                    assert(check.answers(i, why) == b.answers(i, why));
                }
            }
        }
        c
    }

    /// Builder: declare what must hold of the step's output, replacing any
    /// earlier postcondition. The precondition is kept. `check` must accept
    /// every output, as every closure without a precondition does.
    pub fn post<F>(self, check: F) -> (c: Contract<I, O>)
        where
            F: Fn(&O) -> Result<(), String> + Send + Sync + 'static,
        requires
            forall|o: &O| #[trigger] call_requires(check, (o,)),
        ensures
            c.declares_post(),
            c.declares_pre() == self.declares_pre(),
            forall|o: &O, r: Result<(), TraceErr>|
                #[trigger] c.post_answer(o, r) == exists|why: Result<(), String>|
                    #[trigger] check.answers(o, why) && outcome_of("postcondition"@, why, r),
            forall|i: &I, r: Result<(), TraceErr>|
                #[trigger] c.pre_answer(i, r) == self.pre_answer(i, r),
    {
        proof {
            use_type_invariant(&self);
        }
        let boxed: Box<dyn Check<O>> = Box::new(check);
        let c = Contract { pre: self.pre, post: Some(boxed) };
        proof {
            assert forall|o: &O, r: Result<(), TraceErr>|
                #[trigger] c.post_answer(o, r) == exists|why: Result<(), String>|
                    #[trigger] check.answers(o, why) && outcome_of("postcondition"@, why, r) by {
                let b = c.post->0;
                if c.post_answer(o, r) {
                    let why = choose|why: Result<(), String>| #[trigger] b.answers(o, why) && outcome_of("postcondition"@, why, r);
                    assert(check.answers(o, why) == b.answers(o, why));
                }
                if exists|why: Result<(), String>| #[trigger] check.answers(o, why) && outcome_of("postcondition"@, why, r) {
                    let why = choose|why: Result<(), String>| #[trigger] check.answers(o, why) && outcome_of("postcondition"@, why, r);
                    assert(check.answers(o, why) == b.answers(o, why));
                }
            }
        }
        c
    }

    /// True if a precondition was declared.
    pub fn has_pre(&self) -> (b: bool)
        ensures
            b == self.declares_pre(),
    {
        self.pre.is_some()
    }

    /// True if a postcondition was declared.
    pub fn has_post(&self) -> (b: bool)
        ensures
            b == self.declares_post(),
    {
        self.post.is_some()
    }

    /// Check `input` against the precondition: `Ok` if none was declared;
    /// otherwise `Ok` or `ContractViolated` with message
    /// `precondition: <reason>`, as the declared check answers.
    pub fn check_pre(&self, input: &I) -> (r: Result<(), TraceErr>)
        ensures
            !self.declares_pre() ==> r is Ok,
            is_verdict(r, "precondition"@),
            self.pre_answer(input, r),
    {
        proof {
            use_type_invariant(self);
        }
        match &self.pre {
            Some(check) => {
                let why = check.check(input);
                violation("precondition", why)
            },
            None => Ok(()),
        }
    }

    /// Check `output` against the postcondition: `Ok` if none was declared;
    /// otherwise `Ok` or `ContractViolated` with message
    /// `postcondition: <reason>`, as the declared check answers.
    pub fn check_post(&self, output: &O) -> (r: Result<(), TraceErr>)
        ensures
            !self.declares_post() ==> r is Ok,
            is_verdict(r, "postcondition"@),
            self.post_answer(output, r),
    {
        proof {
            use_type_invariant(self);
        }
        match &self.post {
            Some(check) => {
                let why = check.check(output);
                violation("postcondition", why)
            },
            None => Ok(()),
        }
    }
}

impl<I, O> Default for Contract<I, O> {
    /// A contract that checks nothing.
    fn default() -> (c: Contract<I, O>)
        ensures
            !c.declares_pre(),
            !c.declares_post(),
    {
        Contract::new()
    }
}

/// The message a contract step records for `e`: its display text, or
/// `low_confidence` for a `LowConfidence` error, whose scores are binary64.
pub open spec fn violation_text(e: TraceErr, low_confidence: Seq<char>) -> Seq<char> {
    match error::text_spec(e) {
        Some(t) => t,
        None => low_confidence,
    }
}

/// Turn a contract check into the step that records it: a fresh step named
/// `name` with nothing else recorded, `Taken` if the check passed, and
/// `Failed` with the violation's text if it did not. The text of a
/// `LowConfidence` error comes rendered by the caller as `low_confidence`
/// (read only for such an error).
pub fn contract_step(name: &str, outcome: &Result<(), TraceErr>, low_confidence: &str) -> (s: Step)
    ensures
        s.name@ == name@,
        ids::is_random_uuid(s.id),
        s.started_at.clock_reading(),
        s.confidence is None,
        s.duration is None,
        s.branches@.len() == 0,
        s.notes is None,
        s.cost is None,
        match outcome {
            Ok(()) => s.outcome is Taken,
            Err(e) => s.outcome matches StepOutcome::Failed { message } && message@ == violation_text(
                *e,
                low_confidence@,
            ),
        },
{
    let step = Step::named(name);
    match outcome {
        Ok(()) => step,
        Err(e) => match e.to_text() {
            Some(text) => step.failed(text.as_str()),
            None => step.failed(low_confidence),
        },
    }
}

} // verus!
