//! Hex color shortening: a candidate `#` followed by 3, 4, 6 or 8 hex
//! digits collapses to the 3- or 4-digit shorthand exactly when every
//! channel's two digits are equal; anything else is left as found (digit
//! case included), and a run that is not a candidate is rejected so the
//! caller passes it through untouched.

use vstd::prelude::*;
use crate::lex::{is_hex_digit, hex_digit};

verus! {

/// A `#` followed by 3, 4, 6 or 8 hex digits.
pub open spec fn hex_candidate(s: Seq<char>) -> bool {
    &&& (s.len() == 4 || s.len() == 5 || s.len() == 7 || s.len() == 9)
    &&& s[0] == '#'
    &&& forall|j: int| 1 <= j < s.len() ==> is_hex_digit(#[trigger] s[j])
}

/// The canonical (shortest equivalent) form of a hex color candidate,
/// or `None` when `s` is not a candidate.
pub open spec fn hex_shorten(s: Seq<char>) -> Option<Seq<char>> {
    if !hex_candidate(s) {
        None
    } else if s.len() == 9 && s[1] == s[2] && s[3] == s[4] && s[5] == s[6] && s[7] == s[8] {
        Some(seq!['#', s[1], s[3], s[5], s[7]])
    } else if s.len() == 7 && s[1] == s[2] && s[3] == s[4] && s[5] == s[6] {
        Some(seq!['#', s[1], s[3], s[5]])
    } else {
        Some(s)
    }
}

/// Hex shortening is idempotent: what it emits, it emits unchanged when
/// shortened again.
pub proof fn lemma_hex_shorten_idempotent(s: Seq<char>, h: Seq<char>)
    requires
        hex_shorten(s) == Some(h),
    ensures
        hex_shorten(h) == Some(h),
{
    assert(hex_candidate(s));
    if h != s {
        assert(hex_candidate(h)) by {
            assert(forall|j: int| 1 <= j < h.len() ==> is_hex_digit(#[trigger] h[j]));
        }
    }
}

/// Shorten a hex color candidate, or report that it is none.
pub fn try_minify_hex_color(input: &Vec<char>) -> (r: Result<Vec<char>, ()>)
    ensures
        r is Ok <==> hex_shorten(input@) is Some,
        r matches Ok(v) ==> Some(v@) == hex_shorten(input@),
{
    let n = input.len();
    if !(n == 4 || n == 5 || n == 7 || n == 9) {
        return Err(());
    }
    if input[0] != '#' {
        return Err(());
    }
    let mut i: usize = 1;
    while i < n
        invariant
            1 <= i <= n,
            n == input@.len(),
            forall|j: int| 1 <= j < i ==> is_hex_digit(#[trigger] input@[j]),
        decreases n - i,
    {
        if !hex_digit(input[i]) {
            return Err(());
        }
        i += 1;
    }
    if n == 9 && input[1] == input[2] && input[3] == input[4] && input[5] == input[6]
        && input[7] == input[8] {
        let mut v: Vec<char> = Vec::new();
        v.push('#');
        v.push(input[1]);
        v.push(input[3]);
        v.push(input[5]);
        v.push(input[7]);
        proof {
            assert(v@ =~= seq!['#', input@[1], input@[3], input@[5], input@[7]]);
        }
        return Ok(v);
    }
    if n == 7 && input[1] == input[2] && input[3] == input[4] && input[5] == input[6] {
        let mut v: Vec<char> = Vec::new();
        v.push('#');
        v.push(input[1]);
        v.push(input[3]);
        v.push(input[5]);
        proof {
            assert(v@ =~= seq!['#', input@[1], input@[3], input@[5]]);
        }
        return Ok(v);
    }
    let mut v: Vec<char> = Vec::new();
    let mut i: usize = 0;
    while i < n
        invariant
            0 <= i <= n,
            n == input@.len(),
            v@ == input@.subrange(0, i as int),
        decreases n - i,
    {
        v.push(input[i]);
        proof {
            assert(v@ =~= input@.subrange(0, i + 1 as int));
        }
        i += 1;
    }
    proof {
        assert(v@ =~= input@);
    }
    Ok(v)
}

} // verus!
