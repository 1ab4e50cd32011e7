use vstd::prelude::*;

use chrono::Utc;

verus! {

/// Relies on chrono's `Utc::now` and `DateTime::timestamp`: the current
/// time in whole seconds since the Unix epoch. Nothing is known of its value.
#[verifier::external_body]
pub(crate) fn now_seconds() -> i64 {
    Utc::now().timestamp()
}

} // verus!
