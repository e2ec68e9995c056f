//! Timestamps. The store model keeps instants as Unix seconds; the wire
//! format renders them as RFC 3339 text, which only the calendar code of
//! the `chrono` crate can produce.

use vstd::prelude::*;

verus! {

/// Smallest Unix-second instant `chrono` can represent (its minimum UTC
/// date-time).
pub const TS_MIN: i64 = -8334601228800;

/// Largest Unix-second instant `chrono` can represent (its maximum UTC
/// date-time, truncated to whole seconds).
pub const TS_MAX: i64 = 8210266876799;

/// An instant the calendar code can format.
pub open spec fn ts_in_range(t: int) -> bool {
    TS_MIN <= t <= TS_MAX
}

/// Runtime check for [`ts_in_range`], for callers that receive an instant
/// from outside and must validate it before seeding the store.
pub fn timestamp_in_range(t: i64) -> (b: bool)
    ensures
        b == ts_in_range(t as int),
{
    TS_MIN <= t && t <= TS_MAX
}

/// The RFC 3339 rendering of an instant, a fixed unambiguous text form.
/// It depends on the seconds value alone; its exact shape is the calendar
/// arithmetic of `chrono`, which this library does not restate.
pub uninterp spec fn rfc3339_of(secs: int) -> Seq<char>;

/// Relies on `chrono::DateTime::<Utc>::from_timestamp` and
/// `DateTime::to_rfc3339`: for an in-range seconds value `from_timestamp`
/// returns `Some`, and `to_rfc3339` renders the resulting UTC date-time as
/// a function of that value alone.
#[verifier::external_body]
pub(crate) fn format_rfc3339(secs: i64) -> (r: String)
    requires
        ts_in_range(secs as int),
    ensures
        r@ == rfc3339_of(secs as int),
{
    chrono::DateTime::<chrono::Utc>::from_timestamp(secs, 0)
        .expect("in-range timestamp")
        .to_rfc3339()
}

/// Relies on `chrono::Utc::now`: it builds its result through
/// `DateTime::from_timestamp` and aborts rather than return an
/// unrepresentable date-time (or a clock reading before the Unix epoch),
/// so every value it does return has an in-range whole-second timestamp.
/// Nothing else is promised of the clock.
#[verifier::external_body]
pub(crate) fn now_timestamp() -> (r: i64)
    ensures
        ts_in_range(r as int),
{
    chrono::Utc::now().timestamp()
}

} // verus!
