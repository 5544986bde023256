//! Wall-clock readings, behind trusted wrappers.
//!
//! Both results depend on the machine's clock (and, for the stamp, its time
//! zone), so no contract pins their values; callers state what holds of every
//! outcome.

use vstd::prelude::*;

verus! {

/// Relies on chrono::Utc::now and chrono::DateTime::timestamp: seconds since
/// the epoch, reinterpreted as u64. Depends on the clock, so nothing is
/// promised of the value.
#[verifier::external_body]
pub(crate) fn now_epoch_seconds() -> u64 {
    chrono::Utc::now().timestamp() as u64
}

/// Relies on chrono::Local::now and chrono's %Y%m%d%H%M%S formatting: a
/// local-time capture stamp for vault file names. Depends on the clock and
/// the time zone, so nothing is promised of the value.
#[verifier::external_body]
pub(crate) fn now_stamp() -> String {
    chrono::Local::now().format("%Y%m%d%H%M%S").to_string()
}

} // verus!
