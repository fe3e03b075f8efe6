use vstd::prelude::*;

use rand::Rng;

verus! {

/// Relies on rand's `thread_rng().gen_range(lo..hi)`: a value drawn from the
/// half-open range `lo..hi`; it panics on an empty range, hence `lo < hi`.
#[verifier::external_body]
pub(crate) fn random_in(lo: i64, hi: i64) -> (r: i64)
    requires
        lo < hi,
    ensures
        lo <= r < hi,
{
    rand::thread_rng().gen_range(lo..hi)
}

/// A coordinate within `span` of the centre: `-span <= c < span`, or the
/// centre itself where there is no room.
pub open spec fn within_span(c: i64, span: int) -> bool {
    if span > 0 {
        -span <= c < span
    } else {
        c == 0
    }
}

/// Draws a coordinate within `span` of the centre.
pub fn random_within(span: i64) -> (r: i64)
    requires
        span > i64::MIN,
    ensures
        within_span(r, span as int),
{
    if span > 0 {
        random_in(-span, span)
    } else {
        0
    }
}

} // verus!
