//! Error messages for the two failing operations.
//!
//! Each failure carries a single human-readable message that embeds the
//! operating-system error description; callers display it and never
//! branch on a structured code.

use vstd::prelude::*;

verus! {

/// The message carried by a read failure: a fixed prefix followed by the
/// operating-system error description, so it is never empty.
pub fn read_failure_message(cause: &str) -> (r: String)
    ensures
        r@ == "Failed to read file: "@ + cause@,
        r@.len() > cause@.len(),
{
    proof {
        reveal_strlit("Failed to read file: ");
    }
    let mut m = String::from_str("Failed to read file: ");
    m.append(cause);
    m
}

/// The message carried by a listing failure: a fixed prefix followed by
/// the operating-system error description, so it is never empty.
pub fn listing_failure_message(cause: &str) -> (r: String)
    ensures
        r@ == "Failed to read directory: "@ + cause@,
        r@.len() > cause@.len(),
{
    proof {
        reveal_strlit("Failed to read directory: ");
    }
    let mut m = String::from_str("Failed to read directory: ");
    m.append(cause);
    m
}

} // verus!
