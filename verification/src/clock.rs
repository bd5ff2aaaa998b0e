//! The store's clock, behind a trusted wrapper.

use vstd::prelude::*;

verus! {

/// Relies on `chrono::Utc::now` and `DateTime::timestamp_millis`: the
/// current time as milliseconds since the Unix epoch. `Utc::now` panics
/// when the system clock reads before the epoch (or past chrono's
/// representable range), so a value that is returned is non-negative.
/// Nothing else can be promised of a clock reading.
#[verifier::external_body]
pub(crate) fn now_millis() -> (r: i64)
    ensures
        r >= 0,
{
    chrono::Utc::now().timestamp_millis()
}

} // verus!
