//! The two points where the library leans on the host environment: turning
//! a character vector into a `String`, and reading the wall clock.
use vstd::prelude::*;

verus! {

/// Relies on `String`'s `FromIterator<char>`: collecting an iterator of
/// characters yields a string of exactly those characters in order.
#[verifier::external_body]
pub fn chars_to_string(v: &Vec<char>) -> (r: String)
    ensures
        r@ == v@,
{
    v.iter().collect()
}

/// Relies on `std::time::SystemTime::now`: a wall-clock reading in
/// milliseconds since the epoch. Nothing is assumed of the value; a clock
/// before the epoch reads as zero.
#[verifier::external_body]
pub fn now_millis() -> u64 {
    match std::time::SystemTime::now().duration_since(std::time::UNIX_EPOCH) {
        Ok(d) => d.as_millis() as u64,
        Err(_) => 0,
    }
}

} // verus!
