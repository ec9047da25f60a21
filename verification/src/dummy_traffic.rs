//! Cover-traffic timing.
//!
//! Uniform cell size alone does not hide when real traffic happens, so
//! dummy cells go out at randomized intervals: an observer of
//! inter-arrival times cannot tell real sends from noise. The
//! application sleeps; this module says for how long.

use vstd::prelude::*;

verus! {

/// The span of the random jitter, in milliseconds: the gap between the
/// minimum and maximum interval, at least 1, as a 64-bit number.
pub open spec fn jitter_span(span_millis: u128) -> int {
    let s: int = if span_millis == 0 {
        1
    } else {
        span_millis as int
    };
    s % 0x1_0000_0000_0000_0000
}

/// The jitter to add to the minimum interval: a random number modulo
/// the span, so that the wait falls in `[min_interval, max_interval)`
/// when the span is under 2^64 ms.
pub fn jitter_millis(span_millis: u128, random: u64) -> (r: u64)
    requires
        jitter_span(span_millis) != 0,
    ensures
        r == (random as int) % jitter_span(span_millis),
        r < jitter_span(span_millis),
{
    let span: u128 = if span_millis == 0 {
        1
    } else {
        span_millis
    };
    let span64: u64 = (span % 0x1_0000_0000_0000_0000u128) as u64;
    random % span64
}

} // verus!
