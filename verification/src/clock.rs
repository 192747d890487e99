//! Wall-clock timestamps.

use vstd::prelude::*;

verus! {

/// A UTC instant: whole seconds since the Unix epoch plus the sub-second
/// nanoseconds, exactly as `chrono::DateTime<Utc>` reports them through
/// `timestamp` and `timestamp_subsec_nanos`.
#[derive(Debug, Clone, Copy, PartialEq, Eq)]
pub struct Timestamp {
    pub secs: i64,
    pub nanos: u32,
}

/// The first whole second chrono can write as a date: 00:00:00 UTC on
/// January 1, 262143 BCE (year -262143), counted from the Unix epoch.
pub const FIRST_SECOND: i64 = -8_334_601_228_800i64;

/// The last whole second chrono can write as a date: 23:59:59 UTC on
/// December 31, 262142, counted from the Unix epoch.
pub const LAST_SECOND: i64 = 8_210_266_876_799i64;

impl Timestamp {
    /// Within chrono's dates, with the nanoseconds below one second: a
    /// calendar date and time that chrono can write out.
    pub open spec fn representable(self) -> bool {
        &&& FIRST_SECOND <= self.secs <= LAST_SECOND
        &&& self.nanos < 1_000_000_000
    }

    /// An instant the clock can report: on or after the Unix epoch, and
    /// [`Self::representable`].
    pub open spec fn clock_reading(self) -> bool {
        &&& self.secs >= 0
        &&& self.representable()
    }

    /// True if the instant is [`Self::representable`].
    pub fn is_representable(&self) -> (b: bool)
        ensures
            b == self.representable(),
    {
        FIRST_SECOND <= self.secs && self.secs <= LAST_SECOND && self.nanos < 1_000_000_000
    }

    /// Nanoseconds since the epoch.
    pub open spec fn total_nanos(self) -> int {
        self.secs * 1_000_000_000 + self.nanos
    }

    /// The signed time from `earlier` to `self`, in nanoseconds.
    pub fn nanos_since(&self, earlier: &Timestamp) -> (r: i128)
        ensures
            r == self.total_nanos() - earlier.total_nanos(),
    {
        let ds: i128 = self.secs as i128 - earlier.secs as i128;
        let dn: i128 = self.nanos as i128 - earlier.nanos as i128;
        ds * 1_000_000_000 + dn
    }
}

/// The current time.
///
/// Calls `chrono::Utc::now`, which reads the system clock, takes the
/// duration since the Unix epoch and unwraps `DateTime::from_timestamp` of
/// it; it panics if the clock reads earlier than 1970 or past chrono's last
/// date. The contract claims only what that conversion guarantees of every
/// outcome: it is a [`Timestamp::clock_reading`] (whole seconds not
/// negative, accepted by `from_timestamp`, nanoseconds from
/// `Duration::subsec_nanos`). Which instant comes back is left open.
#[verifier::external_body]
pub(crate) fn now() -> (t: Timestamp)
    ensures
        t.clock_reading(),
{
    let t = chrono::Utc::now();
    Timestamp { secs: t.timestamp(), nanos: t.timestamp_subsec_nanos() }
}

/// The RFC 3339 text chrono writes for the UTC instant `secs` seconds and
/// `nanos` nanoseconds after the Unix epoch.
pub uninterp spec fn rfc3339_text(secs: i64, nanos: u32) -> Seq<char>;

/// `t` as RFC 3339 text in UTC, such as `2024-05-01T12:00:00.250+00:00`,
/// or `None` where chrono cannot represent the instant.
///
/// Calls `chrono::DateTime::from_timestamp` and, on its `Some`, `to_rfc3339`.
/// `from_timestamp` accepts every [`Timestamp::representable`] instant (its
/// day count stays within `NaiveDate::MIN..=NaiveDate::MAX` and its time
/// within one day). The text depends on `t` alone, so the contract names it
/// `rfc3339_text` and claims nothing of its layout.
#[verifier::external_body]
pub(crate) fn rfc3339(t: &Timestamp) -> (s: Option<String>)
    ensures
        t.representable() ==> s is Some,
        s matches Some(text) ==> text@ == rfc3339_text(t.secs, t.nanos),
{
    match chrono::DateTime::from_timestamp(t.secs, t.nanos) {
        Some(d) => Some(d.to_rfc3339()),
        None => None,
    }
}

} // verus!
