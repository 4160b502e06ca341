//! The boundary to the `chrono` crate: the current time.
//!
//! Nothing in this module is proved.

use vstd::prelude::*;

verus! {

/// A point in time: seconds since 1970-01-01 00:00:00 UTC, and the
/// nanoseconds since the last full second.
#[derive(Debug, Clone, Copy, PartialEq, Eq, Structural)]
pub struct Timestamp {
    pub secs: i64,
    pub nanos: u32,
}

/// `chrono::Utc::now`, read as seconds (`DateTime::timestamp`) and
/// nanoseconds (`DateTime::timestamp_subsec_nanos`). Nothing is claimed of
/// the time. It panics where the system clock stands before 1970.
#[verifier::external_body]
pub(crate) fn now() -> (r: Timestamp)
{
    let t = chrono::Utc::now();
    Timestamp { secs: t.timestamp(), nanos: t.timestamp_subsec_nanos() }
}

} // verus!
