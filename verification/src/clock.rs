//! Measuring how long a key takes.

use vstd::prelude::*;

verus! {

/// A reading of the clock.
#[verifier::external_type_specification]
#[verifier::external_body]
pub struct ExInstant(std::time::Instant);

/// `Instant::now` reads the clock; nothing is claimed of what it reads.
pub assume_specification[ std::time::Instant::now ]() -> std::time::Instant;

/// `Instant::elapsed` is the time since a reading of the clock; nothing is
/// claimed of it.
pub assume_specification[ std::time::Instant::elapsed ](start: &std::time::Instant) -> std::time::Duration;

/// `Duration::as_millis` is the number of whole milliseconds; nothing is
/// claimed of it.
pub assume_specification[ std::time::Duration::as_millis ](span: &std::time::Duration) -> u128;

} // verus!
