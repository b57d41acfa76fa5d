//! Identifiers and timestamps, which come from the `uuid` and `chrono` crates.
use vstd::prelude::*;

verus! {

/// A fresh random identifier.
///
/// Calls `uuid::Uuid::new_v4` and renders it with `to_string`, which writes the
/// hyphenated lower-case form of 36 characters. The value is random: nothing
/// is stated of it but its length.
#[verifier::external_body]
pub fn new_id() -> (id: String)
    ensures
        id@.len() == 36,
{
    uuid::Uuid::new_v4().to_string()
}

/// The current time, in milliseconds since the Unix epoch.
///
/// Calls `chrono::Utc::now` and `DateTime::timestamp_millis`. The value
/// depends on the clock: nothing is stated of it.
#[verifier::external_body]
pub fn now_millis() -> (t: i64) {
    chrono::Utc::now().timestamp_millis()
}

} // verus!
