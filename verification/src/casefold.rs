//! Unicode lowercasing, delegated to the standard library.
//!
//! Contracts name the lowered form of a character sequence rather than
//! spelling out the Unicode mapping; verified code reasons about that
//! name and tests exercise the real mapping.

use vstd::prelude::*;

verus! {

/// The lowercase form of a character sequence, as the standard library's
/// case mapping produces it.
pub uninterp spec fn lower_of(s: Seq<char>) -> Seq<char>;

/// Relies on str::to_lowercase: the result depends on the characters
/// alone, and an empty string stays empty.
#[verifier::external_body]
pub fn lowercase(s: &str) -> (r: String)
    ensures
        r@ == lower_of(s@),
        s@.len() == 0 ==> r@.len() == 0,
{
    s.to_lowercase()
}

} // verus!
