//! The process clock.

use vstd::prelude::*;

verus! {

/// Relies on chrono::Utc::now().timestamp(): seconds since the Unix epoch by
/// the system clock. No contract constrains the value.
#[verifier::external_body]
pub(crate) fn now_unix() -> i64 {
    chrono::Utc::now().timestamp()
}

/// Current Unix time clamped below at zero, for timestamps and expirations.
pub fn now_clamped() -> u64 {
    let t = now_unix();
    if t < 0 {
        0u64
    } else {
        t as u64
    }
}

} // verus!
