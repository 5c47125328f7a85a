//! The current time, read from the system clock.

use vstd::prelude::*;

verus! {

/// `chrono::Utc::now().timestamp()`: seconds since the Unix epoch.
/// Trusted: nothing is claimed of the value, which comes from the clock.
#[verifier::external_body]
pub(crate) fn now_seconds() -> (t: i64) {
    chrono::Utc::now().timestamp()
}

} // verus!
