//! The system clock.

use vstd::prelude::*;

verus! {

/// The nanoseconds since the Unix epoch, from `std::time::SystemTime::now`; zero for a
/// clock that is set before the epoch. Nothing is claimed of the number.
#[verifier::external_body]
pub(crate) fn system_time() -> (r: u128) {
    std::time::SystemTime::now().duration_since(std::time::UNIX_EPOCH).map_or(
        0,
        |elapsed| elapsed.as_nanos(),
    )
}

} // verus!
