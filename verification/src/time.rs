//! Virtual time spans with nanosecond resolution.
use vstd::prelude::*;

verus! {

/// Nanoseconds in one second.
pub const NANOS_PER_SEC: u128 = 1_000_000_000;

/// Nanoseconds in one millisecond.
pub const NANOS_PER_MILLI: u128 = 1_000_000;

/// The longest representable span: `u64::MAX` seconds plus 999_999_999 nanoseconds.
pub const MAX_NANOS: u128 = 18_446_744_073_709_551_615_999_999_999;

/// A span of virtual time. Its range is that of a span of `u64` whole seconds
/// plus a sub-second part in nanoseconds.
#[derive(Clone, Copy, Debug, PartialEq, Eq, PartialOrd, Ord, Hash, Structural)]
pub struct Duration {
    nanos: u128,
}

impl View for Duration {
    type V = nat;

    closed spec fn view(&self) -> nat {
        self.nanos as nat
    }
}

impl Duration {
    /// Every span lies within the representable range.
    #[verifier::type_invariant]
    spec fn within_range(self) -> bool {
        self.nanos <= MAX_NANOS
    }

    /// The empty span.
    pub fn zero() -> (d: Duration)
        ensures
            d@ == 0,
    {
        Duration { nanos: 0 }
    }

    /// A span of `secs` whole seconds.
    pub fn from_secs(secs: u64) -> (d: Duration)
        ensures
            d@ == secs * NANOS_PER_SEC,
    {
        assert(secs * NANOS_PER_SEC <= MAX_NANOS) by (nonlinear_arith)
            requires
                secs <= u64::MAX,
        ;
        Duration { nanos: secs as u128 * NANOS_PER_SEC }
    }

    /// A span of `millis` milliseconds.
    pub fn from_millis(millis: u64) -> (d: Duration)
        ensures
            d@ == millis * NANOS_PER_MILLI,
    {
        assert(millis * NANOS_PER_MILLI <= MAX_NANOS) by (nonlinear_arith)
            requires
                millis <= u64::MAX,
        ;
        Duration { nanos: millis as u128 * NANOS_PER_MILLI }
    }

    /// A span of `micros` microseconds.
    pub fn from_micros(micros: u64) -> (d: Duration)
        ensures
            d@ == micros * 1000,
    {
        assert(micros * 1000 <= MAX_NANOS) by (nonlinear_arith)
            requires
                micros <= u64::MAX,
        ;
        Duration { nanos: micros as u128 * 1000 }
    }

    /// A span of `nanos` nanoseconds.
    pub fn from_nanos(nanos: u64) -> (d: Duration)
        ensures
            d@ == nanos,
    {
        Duration { nanos: nanos as u128 }
    }

    /// The longest representable span.
    pub fn maximum() -> (d: Duration)
        ensures
            d@ == MAX_NANOS,
    {
        Duration { nanos: MAX_NANOS }
    }

    /// The total number of nanoseconds in the span.
    pub fn as_nanos(&self) -> (n: u128)
        ensures
            n == self@,
            n <= MAX_NANOS,
    {
        proof {
            use_type_invariant(self);
        }
        self.nanos
    }

    /// The sum of two spans, or `None` where it leaves the representable range.
    pub fn checked_add(&self, other: &Duration) -> (r: Option<Duration>)
        ensures
            match r {
                Some(d) => self@ + other@ <= MAX_NANOS && d@ == self@ + other@,
                None => self@ + other@ > MAX_NANOS,
            },
    {
        proof {
            use_type_invariant(self);
            use_type_invariant(other);
        }
        let total = self.nanos + other.nanos;
        if total <= MAX_NANOS {
            Some(Duration { nanos: total })
        } else {
            None
        }
    }

    /// Whether this span is no longer than `other`.
    pub fn le(&self, other: &Duration) -> (b: bool)
        ensures
            b == (self@ <= other@),
    {
        self.nanos <= other.nanos
    }
}

} // verus!
