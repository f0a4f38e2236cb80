//! Character-level helpers: case folding, word-character classification, and
//! conversion of a string into its sequence of code points.

use vstd::prelude::*;

verus! {

/// The lowercase folding of a character sequence, as `str::to_lowercase`
/// computes it. The folding depends on the characters alone, so the result
/// may be named; it is not written out here (full Unicode case mapping),
/// and nothing in this crate claims what it is on given characters.
pub uninterp spec fn lower_of(s: Seq<char>) -> Seq<char>;

/// Whether a character counts as part of a word, as `char::is_alphanumeric`
/// decides it. The classification depends on the character alone (Unicode
/// general categories), so the result may be named.
pub uninterp spec fn is_word_char(c: char) -> bool;

/// Relies on `str::to_lowercase`: returns the lowercase equivalent of the
/// slice; the result depends on the characters alone, and an empty slice
/// stays empty.
#[verifier::external_body]
pub(crate) fn to_lower(s: &str) -> (r: String)
    ensures
        r@ == lower_of(s@),
        s@.len() == 0 ==> r@.len() == 0,
{
    s.to_lowercase()
}

/// Relies on `char::is_alphanumeric`: true exactly when the character is
/// alphabetic or numeric; the result depends on the character alone.
#[verifier::external_body]
pub(crate) fn char_is_word(c: char) -> (r: bool)
    ensures
        r == is_word_char(c),
{
    c.is_alphanumeric()
}

/// The code points of a string slice, as a vector.
pub fn chars_vec(s: &str) -> (r: Vec<char>)
    ensures
        r@ == s@,
{
    let n = s.unicode_len();
    let mut r: Vec<char> = Vec::new();
    let mut i: usize = 0;
    while i < n
        invariant
            n == s@.len(),
            i <= n,
            r@ == s@.subrange(0, i as int),
        decreases n - i,
    {
        r.push(s.get_char(i));
        i = i + 1;
        proof {
            assert(r@ =~= s@.subrange(0, i as int));
        }
    }
    proof {
        assert(r@ =~= s@);
    }
    r
}

} // verus!
