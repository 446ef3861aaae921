//! Exact decimal arithmetic for the color decoder: digit-string values,
//! powers of ten, and round-half-up division. A channel text such as
//! `"12.5"` denotes the rational `dec_num / 10^dec_den_pow`; the decoder
//! rounds `value * 255 / 100` (percentages) or `value * 255` (alpha
//! fractions) to the nearest integer, halves away from zero.
//!
//! Fractions are decoded exactly up to six digits after the dot; a longer
//! fraction is not decoded (the literal is then passed through untouched).

use vstd::prelude::*;
use vstd::arithmetic::div_mod::{
    lemma_fundamental_div_mod,
    lemma_fundamental_div_mod_converse,
    lemma_div_is_ordered,
};
use crate::lex::{is_digit, digit, digit_val};

verus! {

pub open spec fn pow10(k: nat) -> int
    decreases k,
{
    if k == 0 {
        1
    } else {
        10 * pow10((k - 1) as nat)
    }
}

pub proof fn lemma_pow10_pos(k: nat)
    ensures
        pow10(k) >= 1,
    decreases k,
{
    if k > 0 {
        lemma_pow10_pos((k - 1) as nat);
    }
}

/// Every character is a decimal digit.
pub open spec fn all_digits(s: Seq<char>) -> bool {
    forall|j: int| 0 <= j < s.len() ==> is_digit(#[trigger] s[j])
}

/// The integer a digit string denotes (most significant digit first).
pub open spec fn digits_val(s: Seq<char>) -> int
    decreases s.len(),
{
    if s.len() == 0 {
        0
    } else {
        digits_val(s.drop_last()) * 10 + digit_val(s.last())
    }
}

pub proof fn lemma_digits_val_bound(s: Seq<char>)
    requires
        all_digits(s),
    ensures
        0 <= digits_val(s) < pow10(s.len() as nat),
    decreases s.len(),
{
    if s.len() == 0 {
    } else {
        assert(all_digits(s.drop_last())) by {
            assert(forall|j: int| 0 <= j < s.len() - 1 ==> s.drop_last()[j] == s[j]);
        }
        lemma_digits_val_bound(s.drop_last());
        assert(is_digit(s.last()));
        assert(0 <= digit_val(s.last()) <= 9);
        assert(pow10(s.len() as nat) == 10 * pow10((s.len() - 1) as nat));
    }
}

/// The index of the first `'.'` in `s` at or after `i`, or `s.len()`.
pub open spec fn dot_pos_from(s: Seq<char>, i: int) -> int
    decreases s.len() - i,
{
    if i >= s.len() {
        s.len() as int
    } else if s[i] == '.' {
        i
    } else {
        dot_pos_from(s, i + 1)
    }
}

pub open spec fn dot_pos(s: Seq<char>) -> int {
    dot_pos_from(s, 0)
}

pub proof fn lemma_dot_pos_from(s: Seq<char>, i: int)
    requires
        0 <= i <= s.len(),
    ensures
        i <= dot_pos_from(s, i) <= s.len(),
        dot_pos_from(s, i) < s.len() ==> s[dot_pos_from(s, i)] == '.',
        forall|j: int| i <= j < dot_pos_from(s, i) ==> s[j] != '.',
    decreases s.len() - i,
{
    if i < s.len() && s[i] != '.' {
        lemma_dot_pos_from(s, i + 1);
    }
}

/// The digits before the first dot.
pub open spec fn whole_part(s: Seq<char>) -> Seq<char> {
    s.subrange(0, dot_pos(s))
}

/// The digits after the first dot (empty when there is no dot).
pub open spec fn frac_part(s: Seq<char>) -> Seq<char> {
    if dot_pos(s) == s.len() {
        Seq::empty()
    } else {
        s.subrange(dot_pos(s) + 1, s.len() as int)
    }
}

/// A well-formed decimal numeral: digits with at most one dot, at least
/// one digit in all, and at most six digits after the dot.
pub open spec fn dec_wf(s: Seq<char>) -> bool {
    &&& all_digits(whole_part(s))
    &&& all_digits(frac_part(s))
    &&& whole_part(s).len() + frac_part(s).len() >= 1
    &&& frac_part(s).len() <= 6
}

/// The numerator of the denoted rational; its denominator is
/// `pow10(dec_den_pow(s))`.
pub open spec fn dec_num(s: Seq<char>) -> int {
    digits_val(whole_part(s)) * pow10(frac_part(s).len() as nat) + digits_val(frac_part(s))
}

pub open spec fn dec_den_pow(s: Seq<char>) -> nat {
    frac_part(s).len() as nat
}

/// `n / d` rounded to the nearest integer, halves rounded up.
pub open spec fn round_ratio(n: int, d: int) -> int {
    (2 * n + d) / (2 * d)
}

/// Scaling numerator and denominator leaves an integer quotient unchanged.
pub proof fn lemma_div_scaled(n: int, d: int, c: int)
    requires
        d > 0,
        c > 0,
    ensures
        (c * n) / (c * d) == n / d,
{
    lemma_fundamental_div_mod(n, d);
    assert(0 <= n % d < d);
    assert(c * n == (n / d) * (c * d) + c * (n % d)) by (nonlinear_arith)
        requires
            n == d * (n / d) + n % d,
    ;
    assert(0 <= c * (n % d) < c * d) by (nonlinear_arith)
        requires
            c > 0,
            0 <= n % d < d,
    ;
    lemma_fundamental_div_mod_converse(c * n, c * d, n / d, c * (n % d));
}

/// Rounding never falls below the truncated quotient.
pub proof fn lemma_round_ratio_ge_div(n: int, d: int)
    requires
        n >= 0,
        d > 0,
    ensures
        round_ratio(n, d) >= n / d,
{
    lemma_div_is_ordered(2 * n, 2 * n + d, 2 * d);
    lemma_div_scaled(n, d, 2);
}

/// A quotient of at least `k` whole multiples is at least `k`.
pub proof fn lemma_div_at_least(n: int, d: int, k: int)
    requires
        d > 0,
        k >= 0,
        n >= k * d,
    ensures
        n / d >= k,
{
    lemma_fundamental_div_mod(n, d);
    assert(0 <= n % d < d);
    assert(n / d >= k) by (nonlinear_arith)
        requires
            d > 0,
            0 <= n % d < d,
            n == d * (n / d) + n % d,
            n >= k * d,
    ;
}

pub fn digit_value(c: char) -> (r: u32)
    requires
        is_digit(c),
    ensures
        r as int == digit_val(c),
        r <= 9,
{
    (c as u32) - ('0' as u32)
}

/// `pow10` as an executable table.
pub fn pow10_u64(k: u32) -> (r: u64)
    requires
        k <= 6,
    ensures
        r as int == pow10(k as nat),
        r <= 1000000,
{
    proof {
        reveal_with_fuel(pow10, 8);
    }
    if k == 0 {
        1
    } else if k == 1 {
        10
    } else if k == 2 {
        100
    } else if k == 3 {
        1000
    } else if k == 4 {
        10000
    } else if k == 5 {
        100000
    } else {
        1000000
    }
}

/// `round_ratio` on machine integers.
pub fn round_ratio_u64(n: u64, d: u64) -> (r: u64)
    requires
        d > 0,
        2 * n + 2 * d <= u64::MAX,
    ensures
        r as int == round_ratio(n as int, d as int),
{
    (2 * n + d) / (2 * d)
}

/// The value of a digit string, saturated at 256.
pub open spec fn val_sat(s: Seq<char>) -> int {
    if digits_val(s) > 256 {
        256
    } else {
        digits_val(s)
    }
}

/// A position before which no dot occurs, and which holds a dot unless it
/// is the end, is the first dot position.
pub proof fn lemma_dot_pos_at(s: Seq<char>, p: int)
    requires
        0 <= p <= s.len(),
        forall|j: int| 0 <= j < p ==> s[j] != '.',
        p < s.len() ==> s[p] == '.',
    ensures
        dot_pos(s) == p,
{
    lemma_dot_pos_from_at(s, 0, p);
}

proof fn lemma_dot_pos_from_at(s: Seq<char>, i: int, p: int)
    requires
        0 <= i <= p <= s.len(),
        forall|j: int| i <= j < p ==> s[j] != '.',
        p < s.len() ==> s[p] == '.',
    ensures
        dot_pos_from(s, i) == p,
    decreases p - i,
{
    if i < p {
        lemma_dot_pos_from_at(s, i + 1, p);
    }
}

/// The value of the digit run `s[from..to]`, saturated at 256, or `None`
/// if the run holds a non-digit.
pub fn range_val_sat(s: &Vec<char>, from: usize, to: usize) -> (r: Option<u32>)
    requires
        from <= to <= s@.len(),
    ensures
        r is Some <==> all_digits(s@.subrange(from as int, to as int)),
        r matches Some(v) ==> v as int == val_sat(s@.subrange(from as int, to as int)),
{
    let mut i: usize = from;
    let mut acc: u32 = 0;
    while i < to
        invariant
            from <= i <= to <= s@.len(),
            all_digits(s@.subrange(from as int, i as int)),
            acc as int == val_sat(s@.subrange(from as int, i as int)),
            acc <= 256,
        decreases to - i,
    {
        let c = s[i];
        if !digit(c) {
            proof {
                assert(s@.subrange(from as int, to as int)[i - from] == s@[i as int]);
            }
            return None;
        }
        let d = digit_value(c);
        proof {
            let pref = s@.subrange(from as int, i as int);
            let next = s@.subrange(from as int, i + 1 as int);
            assert(next.drop_last() =~= pref);
            assert(next.last() == s@[i as int]);
            assert(digits_val(next) == digits_val(pref) * 10 + digit_val(s@[i as int]));
            assert(forall|j: int| 0 <= j < next.len() ==> is_digit(#[trigger] next[j]));
        }
        let t = acc * 10 + d;
        acc = if t > 256 {
            256
        } else {
            t
        };
        i += 1;
    }
    proof {
        assert(s@.subrange(from as int, to as int) =~= s@.subrange(from as int, i as int));
    }
    Some(acc)
}

/// The exact value of the digit run `s[from..to]` (at most six digits),
/// or `None` if the run holds a non-digit.
pub fn range_val_exact(s: &Vec<char>, from: usize, to: usize) -> (r: Option<u32>)
    requires
        from <= to <= s@.len(),
        to - from <= 6,
    ensures
        r is Some <==> all_digits(s@.subrange(from as int, to as int)),
        r matches Some(v) ==> v as int == digits_val(s@.subrange(from as int, to as int))
            && v < 1000000,
{
    let mut i: usize = from;
    let mut acc: u32 = 0;
    while i < to
        invariant
            from <= i <= to <= s@.len(),
            to - from <= 6,
            all_digits(s@.subrange(from as int, i as int)),
            acc as int == digits_val(s@.subrange(from as int, i as int)),
            (acc as int) < pow10((i - from) as nat),
        decreases to - i,
    {
        let c = s[i];
        if !digit(c) {
            proof {
                assert(s@.subrange(from as int, to as int)[i - from] == s@[i as int]);
            }
            return None;
        }
        let d = digit_value(c);
        proof {
            let pref = s@.subrange(from as int, i as int);
            let next = s@.subrange(from as int, i + 1 as int);
            assert(next.drop_last() =~= pref);
            assert(next.last() == s@[i as int]);
            assert(digits_val(next) == digits_val(pref) * 10 + digit_val(s@[i as int]));
            assert(forall|j: int| 0 <= j < next.len() ==> is_digit(#[trigger] next[j]));
            assert(pow10((i + 1 - from) as nat) == 10 * pow10((i - from) as nat));
            reveal_with_fuel(pow10, 8);
            assert(acc * 10 + d < 10000000);
        }
        acc = acc * 10 + d;
        i += 1;
    }
    proof {
        assert(s@.subrange(from as int, to as int) =~= s@.subrange(from as int, i as int));
        reveal_with_fuel(pow10, 8);
    }
    Some(acc)
}

/// Parse a decimal numeral: `Some((w, f, k))` with the whole part's value
/// `w` saturated at 256, the fraction's exact value `f`, and the fraction
/// length `k`, exactly when the text is well formed.
pub fn parse_decimal(s: &Vec<char>) -> (r: Option<(u32, u32, u32)>)
    ensures
        r is Some <==> dec_wf(s@),
        r matches Some(t) ==> {
            &&& t.0 as int == val_sat(whole_part(s@))
            &&& t.1 as int == digits_val(frac_part(s@))
            &&& t.2 as nat == dec_den_pow(s@)
            &&& t.1 < 1000000
            &&& t.2 <= 6
        },
{
    let n = s.len();
    let mut dp: usize = 0;
    while dp < n && s[dp] != '.'
        invariant
            0 <= dp <= n,
            n == s@.len(),
            forall|j: int| 0 <= j < dp ==> s@[j] != '.',
        decreases n - dp,
    {
        dp += 1;
    }
    proof {
        lemma_dot_pos_at(s@, dp as int);
    }
    let w = match range_val_sat(s, 0, dp) {
        Some(w) => w,
        None => {
            return None;
        },
    };
    if dp == n {
        // no dot: the fraction is empty
        if n == 0 {
            return None;
        }
        proof {
            assert(frac_part(s@) =~= Seq::<char>::empty());
        }
        Some((w, 0, 0))
    } else {
        let klen = n - dp - 1;
        if klen > 6 {
            return None;
        }
        let f = match range_val_exact(s, dp + 1, n) {
            Some(f) => f,
            None => {
                return None;
            },
        };
        if dp == 0 && klen == 0 {
            // a lone dot has no digits at all
            return None;
        }
        Some((w, f, klen as u32))
    }
}

} // verus!
