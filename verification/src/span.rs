//! Timing a named region of execution.

use vstd::prelude::*;
use crate::duration::{self, Duration};

verus! {

#[verifier::external_type_specification]
#[verifier::external_body]
pub struct ExInstant(std::time::Instant);

/// `Instant`'s `Clone`: `Instant` is `Copy`, so the clone is the same
/// reading.
pub assume_specification[ <std::time::Instant as Clone>::clone ](i: &std::time::Instant) -> (r: std::time::Instant)
    ensures
        r == *i,
;

/// The monotonic clock's current reading, via `std::time::Instant::now`.
/// Nothing is claimed of it.
#[verifier::external_body]
fn instant_now() -> (i: std::time::Instant) {
    std::time::Instant::now()
}

/// Nanoseconds elapsed since `since`, via `Instant::elapsed`; the span is
/// a `std::time::Duration`, so it never exceeds the longest one.
#[verifier::external_body]
fn nanos_since(since: &std::time::Instant) -> (n: u128)
    ensures
        n <= duration::max_nanos(),
{
    since.elapsed().as_nanos()
}

/// A timing span: starts on construction and reports elapsed time through
/// [`Span::elapsed`] or [`Span::finish`].
#[derive(Debug, Clone)]
pub struct Span {
    /// Label identifying the timed region.
    pub name: String,
    started: std::time::Instant,
}

impl Span {
    /// The span's label.
    pub closed spec fn label(self) -> Seq<char> {
        self.name@
    }

    /// Start timing a span named `name`, beginning now.
    pub fn start(name: &str) -> (s: Span)
        ensures
            s.label() == name@,
    {
        Span { name: name.to_owned(), started: instant_now() }
    }

    /// Consume the span and return the time elapsed since it started.
    pub fn finish(self) -> (d: Duration) {
        self.elapsed()
    }

    /// The time elapsed so far, without consuming the span.
    pub fn elapsed(&self) -> (d: Duration) {
        Duration::from_total_nanos(nanos_since(&self.started))
    }
}

} // verus!
