//! Spans of time: whole seconds plus sub-second nanoseconds, the same
//! representation and range `std::time::Duration` has.

use vstd::prelude::*;

verus! {

/// Nanoseconds in one second.
pub const NANOS_PER_SEC: u32 = 1_000_000_000u32;

/// A non-negative span of time.
#[derive(Debug, Clone, Copy, PartialEq, Eq)]
pub struct Duration {
    secs: u64,
    nanos: u32,
}

/// The longest representable span, in nanoseconds.
pub open spec fn max_nanos() -> nat {
    0xffff_ffff_ffff_ffffnat * 1_000_000_000nat + 999_999_999nat
}

/// The smaller of two naturals.
pub open spec fn min_nat(a: nat, b: nat) -> nat {
    if a <= b {
        a
    } else {
        b
    }
}

impl View for Duration {
    type V = nat;

    /// The span in nanoseconds.
    closed spec fn view(&self) -> nat {
        (self.secs * 1_000_000_000nat + self.nanos) as nat
    }
}

proof fn lemma_split(total: nat, secs: nat, nanos: nat)
    requires
        secs == total / 1_000_000_000,
        nanos == total % 1_000_000_000,
    ensures
        secs * 1_000_000_000 + nanos == total,
        nanos < 1_000_000_000,
{
    assert(secs * 1_000_000_000 + nanos == total) by (nonlinear_arith)
        requires
            secs == total / 1_000_000_000,
            nanos == total % 1_000_000_000,
    ;
}

impl Duration {
    #[verifier::type_invariant]
    spec fn sub_second(self) -> bool {
        self.nanos < 1_000_000_000
    }

    /// The empty span.
    pub fn zero() -> (d: Duration)
        ensures
            d@ == 0,
    {
        Duration { secs: 0, nanos: 0 }
    }

    /// `secs` whole seconds.
    pub fn from_secs(secs: u64) -> (d: Duration)
        ensures
            d@ == secs * 1_000_000_000,
    {
        Duration { secs, nanos: 0 }
    }

    /// `millis` milliseconds.
    pub fn from_millis(millis: u64) -> (d: Duration)
        ensures
            d@ == millis * 1_000_000,
    {
        let secs = millis / 1000;
        let rem = millis % 1000;
        proof {
            assert(secs * 1000 + rem == millis) by (nonlinear_arith)
                requires
                    secs == millis / 1000,
                    rem == millis % 1000,
            ;
            assert(secs * 1_000_000_000 + rem * 1_000_000 == millis * 1_000_000) by (nonlinear_arith)
                requires
                    secs * 1000 + rem == millis,
            ;
        }
        Duration { secs, nanos: (rem as u32) * 1_000_000 }
    }

    /// `micros` microseconds.
    pub fn from_micros(micros: u64) -> (d: Duration)
        ensures
            d@ == micros * 1_000,
    {
        let secs = micros / 1_000_000;
        let rem = micros % 1_000_000;
        proof {
            assert(secs * 1_000_000 + rem == micros) by (nonlinear_arith)
                requires
                    secs == micros / 1_000_000,
                    rem == micros % 1_000_000,
            ;
            assert(secs * 1_000_000_000 + rem * 1_000 == micros * 1_000) by (nonlinear_arith)
                requires
                    secs * 1_000_000 + rem == micros,
            ;
        }
        Duration { secs, nanos: (rem as u32) * 1_000 }
    }

    /// `nanos` nanoseconds.
    pub fn from_nanos(nanos: u64) -> (d: Duration)
        ensures
            d@ == nanos,
    {
        let secs = nanos / 1_000_000_000;
        let rem = nanos % 1_000_000_000;
        proof {
            lemma_split(nanos as nat, secs as nat, rem as nat);
        }
        Duration { secs, nanos: rem as u32 }
    }

    /// `secs` seconds plus `nanos` nanoseconds, carrying whole seconds out of
    /// `nanos`.
    pub fn new(secs: u64, nanos: u32) -> (d: Duration)
        requires
            secs + nanos / 1_000_000_000 <= u64::MAX,
        ensures
            d@ == secs * 1_000_000_000 + nanos,
    {
        let carry = nanos / NANOS_PER_SEC;
        let rem = nanos % NANOS_PER_SEC;
        proof {
            lemma_split(nanos as nat, carry as nat, rem as nat);
            assert((secs + carry) * 1_000_000_000 + rem == secs * 1_000_000_000 + nanos)
                by (nonlinear_arith)
                requires
                    carry * 1_000_000_000 + rem == nanos,
            ;
        }
        Duration { secs: secs + carry as u64, nanos: rem }
    }

    /// Whole seconds.
    pub fn as_secs(&self) -> (s: u64)
        ensures
            s == self@ / 1_000_000_000,
    {
        proof {
            use_type_invariant(self);
            lemma_div_of_split(self.secs as nat, self.nanos as nat);
        }
        self.secs
    }

    /// Sub-second nanoseconds.
    pub fn subsec_nanos(&self) -> (n: u32)
        ensures
            n == self@ % 1_000_000_000,
    {
        proof {
            use_type_invariant(self);
            lemma_div_of_split(self.secs as nat, self.nanos as nat);
        }
        self.nanos
    }

    /// The whole span in nanoseconds.
    pub fn as_nanos(&self) -> (n: u128)
        ensures
            n == self@,
            n <= max_nanos(),
    {
        proof {
            use_type_invariant(self);
        }
        self.secs as u128 * 1_000_000_000u128 + self.nanos as u128
    }

    /// The sum, or the longest representable span if the sum does not fit.
    pub fn saturating_add(self, rhs: Duration) -> (d: Duration)
        ensures
            d@ == min_nat(self@ + rhs@, max_nanos()),
    {
        proof {
            use_type_invariant(self);
            use_type_invariant(rhs);
        }
        match self.checked_add(rhs) {
            Some(d) => d,
            None => Duration { secs: u64::MAX, nanos: 999_999_999 },
        }
    }

    /// The sum, or `None` if it does not fit.
    pub fn checked_add(self, rhs: Duration) -> (d: Option<Duration>)
        ensures
            match d {
                Some(d) => d@ == self@ + rhs@ && self@ + rhs@ <= max_nanos(),
                None => self@ + rhs@ > max_nanos(),
            },
    {
        proof {
            use_type_invariant(self);
            use_type_invariant(rhs);
        }
        let mut nanos: u32 = self.nanos + rhs.nanos;
        let mut carry: u64 = 0;
        if nanos >= NANOS_PER_SEC {
            nanos = nanos - NANOS_PER_SEC;
            carry = 1;
        }
        match self.secs.checked_add(rhs.secs) {
            None => None,
            Some(s) => match s.checked_add(carry) {
                None => None,
                Some(secs) => Some(Duration { secs, nanos }),
            },
        }
    }
}

proof fn lemma_div_of_split(secs: nat, nanos: nat)
    requires
        nanos < 1_000_000_000,
    ensures
        (secs * 1_000_000_000 + nanos) / 1_000_000_000 == secs,
        (secs * 1_000_000_000 + nanos) % 1_000_000_000 == nanos,
{
    vstd::arithmetic::div_mod::lemma_fundamental_div_mod_converse(
        (secs * 1_000_000_000 + nanos) as int,
        1_000_000_000,
        secs as int,
        nanos as int,
    );
}

/// What `std::time::Duration`'s `Debug` writes for a span of `nanos`
/// nanoseconds (such as `1.5s` or `10ms`).
pub uninterp spec fn debug_text(nanos: nat) -> Seq<char>;

impl Duration {
    /// The span as `std::time::Duration`'s `Debug` writes it.
    ///
    /// Formats `std::time::Duration::new(secs, nanos)` with `{:?}`; the
    /// contract names that text and claims nothing more of it.
    #[verifier::external_body]
    pub(crate) fn debug_string(&self) -> (s: String)
        ensures
            s@ == debug_text(self@),
    {
        format!("{:?}", std::time::Duration::new(self.secs, self.nanos))
    }
}

impl Duration {
    /// A span of `nanos` nanoseconds.
    pub fn from_total_nanos(nanos: u128) -> (d: Duration)
        requires
            nanos <= max_nanos(),
        ensures
            d@ == nanos,
    {
        let secs: u128 = nanos / 1_000_000_000u128;
        let rem: u128 = nanos % 1_000_000_000u128;
        proof {
            lemma_split(nanos as nat, secs as nat, rem as nat);
            assert(secs <= 0xffff_ffff_ffff_ffffu128) by (nonlinear_arith)
                requires
                    secs == nanos / 1_000_000_000u128,
                    nanos <= 0xffff_ffff_ffff_ffffnat * 1_000_000_000nat + 999_999_999nat,
            ;
        }
        Duration { secs: secs as u64, nanos: rem as u32 }
    }
}

/// A span's nanoseconds fit comfortably in an `i128`.
pub proof fn lemma_view_fits(d: Duration)
    ensures
        d@ < 0x7fff_ffff_ffff_ffff_ffff_ffff_ffff_ffff,
{
    assert(d.secs * 1_000_000_000nat + d.nanos <= 0xffff_ffff_ffff_ffffnat * 1_000_000_000nat
        + 0xffff_ffffnat) by (nonlinear_arith)
        requires
            d.secs <= 0xffff_ffff_ffff_ffffnat,
            d.nanos <= 0xffff_ffffnat,
    ;
}

} // verus!
