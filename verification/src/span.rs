//! A span of time: whole seconds and the nanoseconds beyond them.

use vstd::prelude::*;

verus! {

/// Nanoseconds in one second.
pub const NANOS_PER_SEC: u32 = 1_000_000_000;

/// A non-negative span of time with nanosecond resolution.
#[derive(Clone, Copy, Debug)]
pub struct Span {
    secs: u64,
    nanos: u32,
}

impl Span {
    #[verifier::type_invariant]
    spec fn inv(self) -> bool {
        self.nanos < NANOS_PER_SEC
    }

    /// The whole seconds of the span.
    pub closed spec fn spec_as_secs(&self) -> u64 {
        self.secs
    }

    /// The part of the span beyond its whole seconds, in nanoseconds.
    pub closed spec fn spec_subsec_nanos(&self) -> u32 {
        self.nanos
    }

    /// A span of `secs` seconds and `nanos` nanoseconds. Whole seconds held in
    /// `nanos` are carried over into the seconds.
    pub fn new(secs: u64, nanos: u32) -> (span: Span)
        requires
            secs + nanos / 1_000_000_000 <= u64::MAX,
        ensures
            span.as_secs() == secs + nanos / 1_000_000_000,
            span.subsec_nanos() == nanos % 1_000_000_000,
    {
        let carry: u64 = (nanos / NANOS_PER_SEC) as u64;
        Span { secs: secs + carry, nanos: nanos % NANOS_PER_SEC }
    }

    /// A span of whole seconds.
    pub fn from_secs(secs: u64) -> (span: Span)
        ensures
            span.as_secs() == secs,
            span.subsec_nanos() == 0,
    {
        Span { secs, nanos: 0 }
    }

    /// A span of whole milliseconds.
    pub fn from_millis(millis: u64) -> (span: Span)
        ensures
            span.as_secs() == millis / 1_000,
            span.subsec_nanos() == (millis % 1_000) * 1_000_000,
    {
        Span { secs: millis / 1_000, nanos: ((millis % 1_000) as u32) * 1_000_000 }
    }

    /// A span of whole microseconds.
    pub fn from_micros(micros: u64) -> (span: Span)
        ensures
            span.as_secs() == micros / 1_000_000,
            span.subsec_nanos() == (micros % 1_000_000) * 1_000,
    {
        Span { secs: micros / 1_000_000, nanos: ((micros % 1_000_000) as u32) * 1_000 }
    }

    /// A span of whole nanoseconds.
    pub fn from_nanos(nanos: u64) -> (span: Span)
        ensures
            span.as_secs() == nanos / 1_000_000_000,
            span.subsec_nanos() == nanos % 1_000_000_000,
    {
        Span { secs: nanos / 1_000_000_000, nanos: (nanos % 1_000_000_000) as u32 }
    }

    /// The whole seconds of the span.
    #[verifier::when_used_as_spec(spec_as_secs)]
    pub fn as_secs(&self) -> (secs: u64)
        ensures
            secs == self.as_secs(),
    {
        self.secs
    }

    /// The nanoseconds beyond the whole seconds: less than a second.
    #[verifier::when_used_as_spec(spec_subsec_nanos)]
    pub fn subsec_nanos(&self) -> (nanos: u32)
        ensures
            nanos == self.subsec_nanos(),
            nanos < 1_000_000_000,
    {
        proof {
            use_type_invariant(self);
        }
        self.nanos
    }

    /// The whole milliseconds beyond the whole seconds.
    pub fn subsec_millis(&self) -> (millis: u32)
        ensures
            millis == self.subsec_nanos() / 1_000_000,
            millis < 1_000,
    {
        proof {
            use_type_invariant(self);
        }
        self.nanos / 1_000_000
    }
}

} // verus!
