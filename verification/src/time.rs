//! Times and spans of time as nanoseconds.

use crate::edges::Nanos;
use std::time::Duration;
use vstd::prelude::*;

verus! {

/// How many nanoseconds a [`Duration`] spans.
pub uninterp spec fn nanos_of(span: Duration) -> nat;

/// `Duration::as_nanos`: the span in nanoseconds.
pub assume_specification[ Duration::as_nanos ](span: &Duration) -> (nanos: u128)
    ensures
        nanos == nanos_of(*span),
;

/// `Duration::from_nanos`: a span of that many nanoseconds.
pub assume_specification[ Duration::from_nanos ](nanos: u64) -> (span: Duration)
    ensures
        nanos_of(span) == nanos,
;

/// `Duration::from_millis`: a span of that many milliseconds.
pub assume_specification[ Duration::from_millis ](millis: u64) -> (span: Duration)
    ensures
        nanos_of(span) == millis * 1_000_000,
;

/// A count of nanoseconds as a timestamp holds it: the largest one stands for all above it.
pub open spec fn whole_nanos(nanos: nat) -> Nanos {
    if nanos <= Nanos::MAX {
        nanos as Nanos
    } else {
        Nanos::MAX
    }
}

/// The span in nanoseconds, or the largest timestamp if it is longer.
pub fn saturated(span: Duration) -> (nanos: Nanos)
    ensures
        nanos == whole_nanos(nanos_of(span)),
{
    let nanos: u128 = span.as_nanos();
    if nanos <= 0xffff_ffff_ffff_ffff {
        nanos as u64
    } else {
        Nanos::MAX
    }
}

} // verus!
