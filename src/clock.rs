use vstd::prelude::*;

verus! {

/// Relies on chrono's `Utc::now`, read out with `DateTime::timestamp_millis`: the
/// wall-clock time in milliseconds since the Unix epoch. Nothing is promised of
/// the value.
#[verifier::external_body]
pub(crate) fn now_millis() -> (r: i64) {
    chrono::Utc::now().timestamp_millis()
}

} // verus!
