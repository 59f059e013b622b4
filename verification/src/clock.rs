//! The time of day.

use vstd::prelude::*;

verus! {

/// Calls `chrono::Utc::now` and `chrono::DateTime::timestamp_millis`: the milliseconds of the
/// present moment since the start of 1970, by the machine's clock. Claims only that the number is
/// not negative: `Utc::now` does not return where the clock stands before 1970, it panics.
#[verifier::external_body]
fn utc_now_millis() -> (r: i64)
    ensures
        r >= 0,
{
    chrono::Utc::now().timestamp_millis()
}

/// The milliseconds of the present moment since the start of 1970.
pub fn server_time_ms() -> (r: u64)
    ensures
        r <= i64::MAX,
{
    utc_now_millis() as u64
}

} // verus!
