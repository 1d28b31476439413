//! The listing order.
//!
//! Entries sort in three tiers: directories first, then markdown-like
//! files, then the rest; within one tier the lowered names decide,
//! lexicographically by code point.  The order is a total preorder, so a
//! stable insertion sort under it is well defined.

use vstd::prelude::*;
use crate::casefold::lower_of;
use crate::casefold::lowercase;
use crate::entry::FileEntry;

verus! {

/// The comparator's first two tiers collapsed into one rank:
/// directories first, then markdown-like files, then the rest.
pub open spec fn spec_rank(e: FileEntry) -> int {
    if e.is_dir {
        0
    } else if e.is_md {
        1
    } else {
        2
    }
}

/// Lexicographic order on character sequences, by code point.
pub open spec fn lex_le(a: Seq<char>, b: Seq<char>) -> bool
    decreases a.len(),
{
    if a.len() == 0 {
        true
    } else if b.len() == 0 {
        false
    } else if a[0] == b[0] {
        lex_le(a.subrange(1, a.len() as int), b.subrange(1, b.len() as int))
    } else {
        (a[0] as u32) < (b[0] as u32)
    }
}

/// The listing order: by rank, and within one rank by the lowered
/// names, lexicographically.
pub open spec fn entry_le(a: FileEntry, b: FileEntry) -> bool {
    ||| spec_rank(a) < spec_rank(b)
    ||| (spec_rank(a) == spec_rank(b) && lex_le(lower_of(a.name@), lower_of(b.name@)))
}

/// Any two character sequences compare one way or the other.
pub proof fn lemma_lex_le_total(a: Seq<char>, b: Seq<char>)
    ensures
        lex_le(a, b) || lex_le(b, a),
    decreases a.len(),
{
    if a.len() > 0 && b.len() > 0 {
        if a[0] == b[0] {
            lemma_lex_le_total(
                a.subrange(1, a.len() as int),
                b.subrange(1, b.len() as int),
            );
        } else {
            vstd::utf8::char_u32_cast(a[0], a[0] as u32);
            vstd::utf8::char_u32_cast(b[0], b[0] as u32);
        }
    }
}

/// The lexicographic order is transitive.
pub proof fn lemma_lex_le_trans(a: Seq<char>, b: Seq<char>, c: Seq<char>)
    requires
        lex_le(a, b),
        lex_le(b, c),
    ensures
        lex_le(a, c),
    decreases a.len(),
{
    if a.len() > 0 && b.len() > 0 && c.len() > 0 {
        if a[0] == b[0] && b[0] == c[0] {
            lemma_lex_le_trans(
                a.subrange(1, a.len() as int),
                b.subrange(1, b.len() as int),
                c.subrange(1, c.len() as int),
            );
        } else {
            vstd::utf8::char_u32_cast(a[0], a[0] as u32);
            vstd::utf8::char_u32_cast(b[0], b[0] as u32);
            vstd::utf8::char_u32_cast(c[0], c[0] as u32);
        }
    }
}

/// Any two entries compare one way or the other.
pub proof fn lemma_entry_le_total(a: FileEntry, b: FileEntry)
    ensures
        entry_le(a, b) || entry_le(b, a),
{
    lemma_lex_le_total(lower_of(a.name@), lower_of(b.name@));
}

/// The listing order is transitive.
pub proof fn lemma_entry_le_trans(a: FileEntry, b: FileEntry, c: FileEntry)
    requires
        entry_le(a, b),
        entry_le(b, c),
    ensures
        entry_le(a, c),
{
    if spec_rank(a) == spec_rank(b) && spec_rank(b) == spec_rank(c) {
        lemma_lex_le_trans(
            lower_of(a.name@),
            lower_of(b.name@),
            lower_of(c.name@),
        );
    }
}

/// Decides the lexicographic order of two character sequences.
pub fn str_le(a: &str, b: &str) -> (r: bool)
    ensures
        r == lex_le(a@, b@),
{
    let na = a.unicode_len();
    let nb = b.unicode_len();
    let mut k: usize = 0;
    proof {
        assert(a@.subrange(0, na as int) =~= a@);
        assert(b@.subrange(0, nb as int) =~= b@);
    }
    loop
        invariant
            k <= na,
            k <= nb,
            na == a@.len(),
            nb == b@.len(),
            lex_le(a@, b@) == lex_le(
                a@.subrange(k as int, na as int),
                b@.subrange(k as int, nb as int),
            ),
        decreases na - k,
    {
        if k == na {
            return true;
        }
        if k == nb {
            return false;
        }
        let ca = a.get_char(k);
        let cb = b.get_char(k);
        if ca == cb {
            proof {
                assert(a@.subrange(k as int, na as int).subrange(
                    1,
                    (na - k) as int,
                ) =~= a@.subrange(k + 1, na as int));
                assert(b@.subrange(k as int, nb as int).subrange(
                    1,
                    (nb - k) as int,
                ) =~= b@.subrange(k + 1, nb as int));
            }
            k = k + 1;
        } else {
            return (ca as u32) < (cb as u32);
        }
    }
}

/// Decides the listing order of two entries.
pub fn entry_le_exec(a: &FileEntry, b: &FileEntry) -> (r: bool)
    ensures
        r == entry_le(*a, *b),
{
    let ra: u8 = if a.is_dir {
        0
    } else if a.is_md {
        1
    } else {
        2
    };
    let rb: u8 = if b.is_dir {
        0
    } else if b.is_md {
        1
    } else {
        2
    };
    if ra < rb {
        true
    } else if rb < ra {
        false
    } else {
        let la = lowercase(a.name.as_str());
        let lb = lowercase(b.name.as_str());
        str_le(la.as_str(), lb.as_str())
    }
}

} // verus!
