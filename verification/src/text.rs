//! Character-level helpers over borrowed string slices: full text equality
//! and the two shape checks that select a resolution strategy.

use vstd::prelude::*;

verus! {

/// Holds when a segment text marks a reserved keyword path: it starts
/// with the character `@`.
pub open spec fn starts_keyword_marker(t: Seq<char>) -> bool {
    t.len() > 0 && t[0] == '@'
}

/// Holds when a segment text is the lead-in of an explicitly relative
/// path: it ends with the two characters `./`.
pub open spec fn ends_relative_marker(t: Seq<char>) -> bool {
    t.len() >= 2 && t[t.len() - 2] == '.' && t[t.len() - 1] == '/'
}

/// Character-by-character equality of two string slices.
pub fn str_eq(a: &str, b: &str) -> (r: bool)
    ensures
        r == (a@ == b@),
{
    let a_len = a.unicode_len();
    let b_len = b.unicode_len();
    if a_len != b_len {
        proof {
            assert(a@.len() != b@.len());
        }
        return false;
    }
    let mut i: usize = 0;
    while i < a_len
        invariant
            i <= a_len,
            a_len == a@.len(),
            b_len == b@.len(),
            a_len == b_len,
            forall|k: int| 0 <= k < i ==> a@[k] == b@[k],
        decreases a_len - i,
    {
        if a.get_char(i) != b.get_char(i) {
            proof {
                assert(a@[i as int] != b@[i as int]);
            }
            return false;
        }
        i += 1;
    }
    proof {
        assert(a@ =~= b@);
    }
    true
}

/// Whether the slice's first character is the keyword marker `@`.
pub fn starts_with_keyword_marker(s: &str) -> (r: bool)
    ensures
        r == starts_keyword_marker(s@),
{
    let n = s.unicode_len();
    if n == 0 {
        return false;
    }
    s.get_char(0) == '@'
}

/// Whether the slice's last two characters are `./`.
pub fn ends_with_relative_marker(s: &str) -> (r: bool)
    ensures
        r == ends_relative_marker(s@),
{
    let n = s.unicode_len();
    if n < 2 {
        return false;
    }
    s.get_char(n - 2) == '.' && s.get_char(n - 1) == '/'
}

} // verus!
