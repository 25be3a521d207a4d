//! Wall-clock readings, used to timestamp ledger entries.
//!
//! The clock is outside the logic: nothing is promised of the value.

use vstd::prelude::*;

verus! {

/// Relies on chrono's `From<SystemTime>` conversion to `DateTime<Utc>`
/// (total, also before the epoch) and on `DateTime::format`: the current
/// UTC time rendered as `YYYY-MM-DD hh:mm:ss`. Depends on the clock;
/// nothing is promised of the value.
#[verifier::external_body]
pub(crate) fn current_timestamp_text() -> Vec<u8> {
    let now: chrono::DateTime<chrono::Utc> = std::time::SystemTime::now().into();
    now.format("%Y-%m-%d %H:%M:%S").to_string().into_bytes()
}

} // verus!
