//! Access to the wall clock and to random order ids. Both values depend
//! on the machine, so nothing is promised of them: the rest of the
//! engine is verified for every value they may take.

use vstd::prelude::*;

verus! {

use crate::types::{OrderId, TimestampMillis};

pub struct Util;

impl Util {
    /// Relies on std::time::SystemTime::now: the wall clock read at the
    /// call, converted to whole milliseconds since the Unix epoch (zero
    /// should the clock read before the epoch). The value depends on
    /// the machine's clock, so nothing is promised of it.
    #[verifier::external_body]
    pub fn current_time_millis() -> TimestampMillis {
        match std::time::SystemTime::now().duration_since(std::time::UNIX_EPOCH) {
            Ok(elapsed) => elapsed.as_millis(),
            Err(_) => 0,
        }
    }

    /// Relies on uuid::Uuid::new_v4: a fresh random version-4 UUID,
    /// carried as its 128-bit value. The value is drawn from the
    /// operating system's randomness, so nothing is promised of it; in
    /// particular the engine never assumes two draws differ.
    #[verifier::external_body]
    pub(crate) fn fresh_order_id() -> OrderId {
        uuid::Uuid::new_v4().as_u128()
    }
}

} // verus!
