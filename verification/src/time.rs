//! Spans of time.
use vstd::prelude::*;

verus! {

/// Nanoseconds in a second.
pub const NANOS_PER_SEC: u32 = 1_000_000_000;

/// The longest span, in nanoseconds.
pub open spec fn max_nanos() -> nat {
    (u64::MAX * 1_000_000_000 + 999_999_999) as nat
}

/// A span of time: whole seconds and the nanoseconds beyond them. Its view is the span in
/// nanoseconds.
#[derive(Debug, Clone, Copy, PartialEq, Eq, PartialOrd, Ord, Hash)]
pub struct Duration {
    secs: u64,
    nanos: u32,
}

impl View for Duration {
    type V = nat;

    closed spec fn view(&self) -> nat {
        (self.secs * 1_000_000_000 + self.nanos) as nat
    }
}

impl Duration {
    #[verifier::type_invariant]
    pub closed spec fn normal(self) -> bool {
        self.nanos < 1_000_000_000
    }

    /// The span of `secs` seconds and `nanos` nanoseconds, if it is not too long.
    pub fn new(secs: u64, nanos: u32) -> (d: Option<Duration>)
        ensures
            match d {
                Some(d) => d@ == secs * 1_000_000_000 + nanos,
                None => secs * 1_000_000_000 + nanos > max_nanos(),
            },
    {
        let carry: u64 = (nanos / NANOS_PER_SEC) as u64;
        match secs.checked_add(carry) {
            Some(secs) => Some(Duration { secs, nanos: nanos % NANOS_PER_SEC }),
            None => None,
        }
    }

    pub fn from_secs(secs: u64) -> (d: Duration)
        ensures
            d@ == secs * 1_000_000_000,
    {
        Duration { secs, nanos: 0 }
    }

    pub fn from_millis(millis: u64) -> (d: Duration)
        ensures
            d@ == millis * 1_000_000,
    {
        Duration { secs: millis / 1000, nanos: (millis % 1000) as u32 * 1_000_000 }
    }

    /// The whole seconds of the span.
    pub fn as_secs(&self) -> (secs: u64)
        ensures
            secs == self@ / 1_000_000_000,
    {
        proof {
            use_type_invariant(self);
        }
        self.secs
    }

    /// The nanoseconds beyond the whole seconds.
    pub fn subsec_nanos(&self) -> (nanos: u32)
        ensures
            nanos == self@ % 1_000_000_000,
            nanos < 1_000_000_000,
    {
        proof {
            use_type_invariant(self);
        }
        self.nanos
    }

    /// The whole span in nanoseconds.
    pub fn as_nanos(&self) -> (n: u128)
        ensures
            n == self@,
            n <= max_nanos(),
    {
        proof {
            use_type_invariant(self);
        }
        self.secs as u128 * 1_000_000_000 + self.nanos as u128
    }

    pub fn is_zero(&self) -> (r: bool)
        ensures
            r == (self@ == 0),
    {
        self.secs == 0 && self.nanos == 0
    }

    /// Whether this span is longer than `other`.
    pub fn exceeds(&self, other: &Duration) -> (r: bool)
        ensures
            r == (self@ > other@),
    {
        proof {
            use_type_invariant(self);
            use_type_invariant(other);
        }
        self.secs > other.secs || (self.secs == other.secs && self.nanos > other.nanos)
    }

    /// The two spans one after the other, or the longest span where that is too long.
    pub fn saturating_add(&self, other: &Duration) -> (d: Duration)
        ensures
            d@ == if self@ + other@ <= max_nanos() {
                self@ + other@
            } else {
                max_nanos()
            },
    {
        proof {
            use_type_invariant(self);
            use_type_invariant(other);
        }
        let nanos: u32 = self.nanos + other.nanos;
        let carry: u64 = if nanos >= NANOS_PER_SEC { 1 } else { 0 };
        let nanos: u32 = if nanos >= NANOS_PER_SEC { nanos - NANOS_PER_SEC } else { nanos };
        match self.secs.checked_add(other.secs) {
            Some(secs) => match secs.checked_add(carry) {
                Some(secs) => Duration { secs, nanos },
                None => Duration { secs: u64::MAX, nanos: 999_999_999 },
            },
            None => Duration { secs: u64::MAX, nanos: 999_999_999 },
        }
    }
}

} // verus!
