//! The time of day, and times before and after it.
use vstd::prelude::*;

verus! {

/// The seconds since the Unix epoch, from `chrono::Utc::now` and
/// `DateTime::timestamp`. Nothing is claimed of the result: the clock of the
/// machine decides.
#[verifier::external_body]
pub(crate) fn unix_now() -> (now: i64) {
    chrono::Utc::now().timestamp()
}

/// The time closest to `t` that can be written.
pub open spec fn clamp(t: int) -> int {
    if t > i64::MAX {
        i64::MAX as int
    } else if t < i64::MIN {
        i64::MIN as int
    } else {
        t
    }
}

/// The time `seconds` after `t`, or the last that can be written.
pub fn later(t: i64, seconds: i64) -> (sum: i64)
    ensures
        sum == clamp(t + seconds),
{
    match t.checked_add(seconds) {
        Some(sum) => sum,
        None => if seconds > 0 {
            i64::MAX
        } else {
            i64::MIN
        },
    }
}

/// The time `seconds` before `t`, or the first that can be written.
pub fn earlier(t: i64, seconds: i64) -> (difference: i64)
    ensures
        difference == clamp(t - seconds),
{
    match t.checked_sub(seconds) {
        Some(difference) => difference,
        None => if seconds > 0 {
            i64::MIN
        } else {
            i64::MAX
        },
    }
}

} // verus!
