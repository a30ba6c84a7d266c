//! Controlled monotonic simulation time.
use vstd::prelude::*;

verus! {

/// Nanoseconds in one second.
pub const NANOS_PER_SEC: u128 = 1_000_000_000;

/// The largest representable instant: `u64::MAX` whole seconds plus 999 999 999 ns.
pub const MAX_NANOS: u128 = 18_446_744_073_709_551_615_999_999_999;

/// A span of simulation time with nanosecond precision, measured from the
/// simulation clock's zero when used as an instant.
#[derive(Debug, Clone, Copy, PartialEq, Eq, Structural, Hash)]
pub struct Duration {
    nanos: u128,
}

impl View for Duration {
    type V = nat;

    closed spec fn view(&self) -> nat {
        self.nanos as nat
    }
}

impl Duration {
    #[verifier::type_invariant]
    spec fn bounded(self) -> bool {
        self.nanos <= MAX_NANOS
    }

    /// The empty span.
    pub fn zero() -> (d: Duration)
        ensures
            d@ == 0,
    {
        Duration { nanos: 0 }
    }

    /// The largest representable span.
    pub fn max_value() -> (d: Duration)
        ensures
            d@ == MAX_NANOS,
    {
        Duration { nanos: MAX_NANOS }
    }

    /// A span of whole seconds.
    pub fn from_secs(secs: u64) -> (d: Duration)
        ensures
            d@ == secs * NANOS_PER_SEC,
    {
        assert(secs * NANOS_PER_SEC <= MAX_NANOS) by (nonlinear_arith)
            requires
                secs <= u64::MAX,
        ;
        Duration { nanos: secs as u128 * NANOS_PER_SEC }
    }

    /// Total nanoseconds.
    pub fn as_nanos(&self) -> (n: u128)
        ensures
            n == self@,
            n <= MAX_NANOS,
    {
        proof {
            use_type_invariant(self);
        }
        self.nanos
    }

    /// `self + other`, or `None` when the sum is not representable.
    pub fn checked_add(self, other: Duration) -> (r: Option<Duration>)
        ensures
            match r {
                Some(d) => d@ == self@ + other@ && d@ <= MAX_NANOS,
                None => self@ + other@ > MAX_NANOS,
            },
    {
        proof {
            use_type_invariant(&self);
            use_type_invariant(&other);
        }
        if self.nanos <= MAX_NANOS - other.nanos {
            Some(Duration { nanos: self.nanos + other.nanos })
        } else {
            None
        }
    }

    /// `self - other`, or zero when `other` is later.
    pub fn saturating_sub(self, other: Duration) -> (d: Duration)
        ensures
            d@ == (if self@ >= other@ { self@ - other@ } else { 0 }),
    {
        proof {
            use_type_invariant(&self);
            use_type_invariant(&other);
        }
        if self.nanos >= other.nanos {
            Duration { nanos: self.nanos - other.nanos }
        } else {
            Duration { nanos: 0 }
        }
    }

    /// Whether `self` is strictly earlier than `other`.
    pub fn lt(&self, other: &Duration) -> (b: bool)
        ensures
            b == (self@ < other@),
            self@ <= MAX_NANOS,
            other@ <= MAX_NANOS,
    {
        proof {
            use_type_invariant(self);
            use_type_invariant(other);
        }
        self.nanos < other.nanos
    }

    /// Whether `self` is earlier than or equal to `other`.
    pub fn le(&self, other: &Duration) -> (b: bool)
        ensures
            b == (self@ <= other@),
            self@ <= MAX_NANOS,
            other@ <= MAX_NANOS,
    {
        proof {
            use_type_invariant(self);
            use_type_invariant(other);
        }
        self.nanos <= other.nanos
    }

    /// Whether both denote the same span.
    pub fn same(&self, other: &Duration) -> (b: bool)
        ensures
            b == (self@ == other@),
            b == (*self == *other),
    {
        self.nanos == other.nanos
    }
}

/// A monotonic simulation clock. It advances only when the caller requests it.
#[derive(Debug)]
pub struct ControlledClock {
    now: Duration,
}

impl View for ControlledClock {
    type V = nat;

    closed spec fn view(&self) -> nat {
        self.now@
    }
}

impl Default for ControlledClock {
    fn default() -> (c: Self)
        ensures
            c@ == 0,
    {
        ControlledClock { now: Duration::zero() }
    }
}

impl ControlledClock {
    /// The current simulation time.
    pub fn now(&self) -> (t: Duration)
        ensures
            t@ == self@,
            t@ <= MAX_NANOS,
    {
        proof {
            use_type_invariant(&self.now);
        }
        self.now
    }

    /// Advances virtual time without sleeping. The new time must be representable.
    pub fn advance(&mut self, elapsed: Duration)
        requires
            old(self)@ + elapsed@ <= MAX_NANOS,
        ensures
            final(self)@ == old(self)@ + elapsed@,
    {
        match self.now.checked_add(elapsed) {
            Some(t) => self.now = t,
            None => {},
        }
    }
}

} // verus!
