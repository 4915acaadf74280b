//! The clock that stamps trades.

use vstd::prelude::*;

verus! {

/// The wall clock in nanoseconds since the Unix epoch, read through
/// `SystemTime::elapsed` on `UNIX_EPOCH` (0 when the clock is set before the
/// epoch). Nothing is stated of the value: it is whatever the clock says.
#[verifier::external_body]
pub(crate) fn get_system_time() -> u64 {
    match std::time::UNIX_EPOCH.elapsed() {
        Ok(d) => d.as_nanos() as u64,
        Err(_) => 0,
    }
}

} // verus!
