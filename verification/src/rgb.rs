//! Functional color decoding: the text of an `rgb(...)`/`rgba(...)` run is
//! scanned into up to four channel numerals, each an integer `0..=255` or a
//! percentage (and, for the fourth channel, a decimal fraction); the result
//! is the equivalent `#RRGGBB`/`#RRGGBBAA` form in lowercase hex. An alpha
//! that denotes exactly 1 is omitted. Any shape outside this grammar is
//! rejected, and the caller passes the run through as literal text.

use vstd::prelude::*;
use vstd::arithmetic::div_mod::{lemma_fundamental_div_mod, lemma_multiply_divide_lt};
use crate::lex::{is_digit, digit, is_decodable, decodable, is_hex_digit};
use crate::numeric::{
    pow10,
    lemma_pow10_pos,
    all_digits,
    digits_val,
    lemma_digits_val_bound,
    whole_part,
    frac_part,
    dec_wf,
    dec_num,
    dec_den_pow,
    round_ratio,
    lemma_round_ratio_ge_div,
    lemma_div_at_least,
    val_sat,
    parse_decimal,
    range_val_sat,
    pow10_u64,
    round_ratio_u64,
};
use crate::color::hex_candidate;

verus! {

/// The byte a color channel numeral denotes: a plain integer `0..=255`,
/// or `round(percent * 255 / 100)` when the channel carried a `%`.
pub open spec fn channel_byte(s: Seq<char>, percent: bool) -> Option<int> {
    if percent {
        if dec_wf(s) {
            let b = round_ratio(dec_num(s) * 255, 100 * pow10(dec_den_pow(s)));
            if b <= 255 {
                Some(b)
            } else {
                None
            }
        } else {
            None
        }
    } else {
        if s.len() > 0 && all_digits(s) && digits_val(s) <= 255 {
            Some(digits_val(s))
        } else {
            None
        }
    }
}

/// What an alpha numeral denotes: exactly 1 (channel omitted), a byte
/// `round(value * 255)` — with the percentage scale when `%` was seen —
/// or a rejection.
pub ghost enum AlphaSpec {
    Opaque,
    Value(int),
    Bad,
}

pub open spec fn alpha_scale(percent: bool) -> int {
    if percent {
        100
    } else {
        1
    }
}

pub open spec fn alpha_mode(s: Seq<char>, percent: bool) -> AlphaSpec {
    if dec_wf(s) {
        let d = alpha_scale(percent) * pow10(dec_den_pow(s));
        if dec_num(s) == d {
            AlphaSpec::Opaque
        } else {
            let b = round_ratio(dec_num(s) * 255, d);
            if b <= 255 {
                AlphaSpec::Value(b)
            } else {
                AlphaSpec::Bad
            }
        }
    } else {
        AlphaSpec::Bad
    }
}

/// Lowercase hex digit for a value below 16.
pub open spec fn hex_char(v: int) -> char {
    if v == 0 { '0' }
    else if v == 1 { '1' }
    else if v == 2 { '2' }
    else if v == 3 { '3' }
    else if v == 4 { '4' }
    else if v == 5 { '5' }
    else if v == 6 { '6' }
    else if v == 7 { '7' }
    else if v == 8 { '8' }
    else if v == 9 { '9' }
    else if v == 10 { 'a' }
    else if v == 11 { 'b' }
    else if v == 12 { 'c' }
    else if v == 13 { 'd' }
    else if v == 14 { 'e' }
    else { 'f' }
}

/// Two lowercase hex digits for a byte.
pub open spec fn byte_hex(b: int) -> Seq<char> {
    seq![hex_char(b / 16), hex_char(b % 16)]
}

/// The scanner's running state: the four channel numerals gathered so
/// far, their percent flags, the channel the scanner is filling, and
/// whether it stands inside a separator run.
pub ghost struct RgbScan {
    pub chs: Seq<Seq<char>>,
    pub pcs: Seq<bool>,
    pub idx: int,
    pub insep: bool,
}

pub open spec fn rgb_scan_init() -> RgbScan {
    RgbScan {
        chs: seq![Seq::empty(), Seq::empty(), Seq::empty(), Seq::empty()],
        pcs: seq![false, false, false, false],
        idx: 0,
        insep: false,
    }
}

/// One left-to-right scan of the argument list, from position `i` up to
/// the first `)`. Digits, dots and `%` belong to the channel `idx` points
/// at; a run of separators moves `idx` on by one; a fifth channel, a
/// character outside the decodable set, or a missing `)` rejects.
pub open spec fn rgb_args(s: Seq<char>, i: int, st: RgbScan) -> Option<RgbScan>
    decreases s.len() - i,
{
    if i >= s.len() {
        None
    } else {
        let c = s[i];
        if c == ')' {
            Some(st)
        } else if !is_decodable(c) {
            None
        } else if is_digit(c) || c == '.' {
            if st.idx > 3 {
                None
            } else {
                rgb_args(s, i + 1, RgbScan {
                    chs: st.chs.update(st.idx, st.chs[st.idx].push(c)),
                    pcs: st.pcs,
                    idx: st.idx,
                    insep: false,
                })
            }
        } else if c == '%' {
            if st.idx > 3 {
                None
            } else {
                rgb_args(s, i + 1, RgbScan {
                    chs: st.chs,
                    pcs: st.pcs.update(st.idx, true),
                    idx: st.idx,
                    insep: false,
                })
            }
        } else {
            // a separator: ' ', ',' or '/'
            if st.insep {
                rgb_args(s, i + 1, st)
            } else {
                rgb_args(s, i + 1, RgbScan {
                    chs: st.chs,
                    pcs: st.pcs,
                    idx: st.idx + 1,
                    insep: true,
                })
            }
        }
    }
}

/// Turn a completed scan into the hex form: three mandatory color
/// channels, then the alpha channel if its numeral is present and does
/// not denote exactly 1.
pub open spec fn rgb_finish(st: RgbScan) -> Option<Seq<char>> {
    match (channel_byte(st.chs[0], st.pcs[0]), channel_byte(st.chs[1], st.pcs[1]), channel_byte(
        st.chs[2],
        st.pcs[2],
    )) {
        (Some(r), Some(g), Some(b)) => {
            let base = seq!['#'] + byte_hex(r) + byte_hex(g) + byte_hex(b);
            if st.chs[3].len() == 0 {
                Some(base)
            } else {
                match alpha_mode(st.chs[3], st.pcs[3]) {
                    AlphaSpec::Opaque => Some(base),
                    AlphaSpec::Value(a) => Some(base + byte_hex(a)),
                    AlphaSpec::Bad => None,
                }
            }
        },
        _ => None,
    }
}

/// Decode a whole `rgb...(...)` run, given from its `r` through its `)`.
/// The three characters `rgb` themselves are the caller's lookahead; the
/// decoder checks the optional `a` and the parenthesis.
pub open spec fn rgb_decode(s: Seq<char>) -> Option<Seq<char>> {
    if s.len() < 4 {
        None
    } else {
        let p: int = if s[3] == 'a' { 4 } else { 3 };
        if p >= s.len() || s[p] != '(' {
            None
        } else {
            match rgb_args(s, p + 1, rgb_scan_init()) {
                Some(st) => rgb_finish(st),
                None => None,
            }
        }
    }
}

/// A decoded channel byte lies in `0..=255`.
pub proof fn lemma_channel_byte_range(s: Seq<char>, percent: bool)
    ensures
        channel_byte(s, percent) matches Some(b) ==> 0 <= b <= 255,
{
    if percent && dec_wf(s) {
        let k = dec_den_pow(s);
        lemma_pow10_pos(k);
        lemma_digits_val_bound(whole_part(s));
        lemma_digits_val_bound(frac_part(s));
        let n = dec_num(s) * 255;
        let d = 100 * pow10(k);
        assert(n >= 0) by (nonlinear_arith)
            requires
                dec_num(s) == digits_val(whole_part(s)) * pow10(k) + digits_val(frac_part(s)),
                digits_val(whole_part(s)) >= 0,
                digits_val(frac_part(s)) >= 0,
                pow10(k) >= 1,
                n == dec_num(s) * 255,
        ;
        assert(d >= 100);
        lemma_div_at_least(2 * n + d, 2 * d, 0);
    } else if !percent && s.len() > 0 && all_digits(s) {
        lemma_digits_val_bound(s);
    }
}

/// A decoded alpha byte lies in `0..=255`.
pub proof fn lemma_alpha_mode_range(s: Seq<char>, percent: bool)
    ensures
        alpha_mode(s, percent) matches AlphaSpec::Value(a) ==> 0 <= a <= 255,
{
    if dec_wf(s) {
        let k = dec_den_pow(s);
        lemma_pow10_pos(k);
        lemma_digits_val_bound(whole_part(s));
        lemma_digits_val_bound(frac_part(s));
        let n = dec_num(s) * 255;
        let d = alpha_scale(percent) * pow10(k);
        assert(n >= 0) by (nonlinear_arith)
            requires
                dec_num(s) == digits_val(whole_part(s)) * pow10(k) + digits_val(frac_part(s)),
                digits_val(whole_part(s)) >= 0,
                digits_val(frac_part(s)) >= 0,
                pow10(k) >= 1,
                n == dec_num(s) * 255,
        ;
        assert(d >= 1);
        lemma_div_at_least(2 * n + d, 2 * d, 0);
    }
}

/// `hex_char` yields a hex digit.
pub proof fn lemma_hex_char_is_hex(v: int)
    requires
        0 <= v < 16,
    ensures
        is_hex_digit(hex_char(v)),
{
}

/// What the decoder emits is itself a hex color candidate, so shortening
/// it cannot fail.
pub proof fn lemma_rgb_decode_candidate(s: Seq<char>)
    ensures
        rgb_decode(s) matches Some(h) ==> hex_candidate(h),
{
    if s.len() >= 4 {
        let p: int = if s[3] == 'a' { 4 } else { 3 };
        if p < s.len() && s[p] == '(' {
            match rgb_args(s, p + 1, rgb_scan_init()) {
                Some(st) => {
                    lemma_channel_byte_range(st.chs[0], st.pcs[0]);
                    lemma_channel_byte_range(st.chs[1], st.pcs[1]);
                    lemma_channel_byte_range(st.chs[2], st.pcs[2]);
                    lemma_alpha_mode_range(st.chs[3], st.pcs[3]);
                    match rgb_finish(st) {
                        Some(h) => {
                            assert forall|b: int| 0 <= b <= 255 implies is_hex_digit(
                                byte_hex(b)[0],
                            ) && is_hex_digit(byte_hex(b)[1]) by {
                                lemma_multiply_divide_lt(b, 16, 16);
                                lemma_div_at_least(b, 16, 0);
                                lemma_fundamental_div_mod(b, 16);
                                lemma_hex_char_is_hex(b / 16);
                                lemma_hex_char_is_hex(b % 16);
                            }
                        },
                        None => {},
                    }
                },
                None => {},
            }
        }
    }
}

/// A numeral whose whole part reaches 256 rounds above 255 and is
/// rejected, whatever the scale.
proof fn lemma_dec_overflow(s: Seq<char>, scale: int)
    requires
        dec_wf(s),
        scale == 1 || scale == 100,
        digits_val(whole_part(s)) >= 256,
    ensures
        round_ratio(dec_num(s) * 255, scale * pow10(dec_den_pow(s))) > 255,
{
    let k = dec_den_pow(s);
    lemma_pow10_pos(k);
    lemma_digits_val_bound(frac_part(s));
    let n = dec_num(s) * 255;
    let d = scale * pow10(k);
    assert(n >= 652 * d && n >= 0 && d >= 1) by (nonlinear_arith)
        requires
            dec_num(s) == digits_val(whole_part(s)) * pow10(k) + digits_val(frac_part(s)),
            digits_val(whole_part(s)) >= 256,
            digits_val(frac_part(s)) >= 0,
            pow10(k) >= 1,
            scale == 1 || scale == 100,
            n == dec_num(s) * 255,
            d == scale * pow10(k),
    ;
    lemma_round_ratio_ge_div(n, d);
    lemma_div_at_least(n, d, 652);
}

/// A numeral denotes exactly the scale (1, or 100 for a percentage) iff
/// its whole part is the scale and its fraction is zero.
proof fn lemma_opaque_iff(s: Seq<char>, scale: int)
    requires
        dec_wf(s),
        scale == 1 || scale == 100,
    ensures
        dec_num(s) == scale * pow10(dec_den_pow(s)) <==> digits_val(whole_part(s)) == scale
            && digits_val(frac_part(s)) == 0,
{
    let k = dec_den_pow(s);
    lemma_pow10_pos(k);
    lemma_digits_val_bound(frac_part(s));
    let w = digits_val(whole_part(s));
    let f = digits_val(frac_part(s));
    assert(w * pow10(k) + f == scale * pow10(k) <==> w == scale && f == 0) by (nonlinear_arith)
        requires
            0 <= f < pow10(k),
            pow10(k) >= 1,
    ;
}

/// Lowercase hex digit of a value below 16.
fn hex_char_of(v: u8) -> (c: char)
    requires
        v < 16,
    ensures
        c == hex_char(v as int),
{
    if v == 0 { '0' }
    else if v == 1 { '1' }
    else if v == 2 { '2' }
    else if v == 3 { '3' }
    else if v == 4 { '4' }
    else if v == 5 { '5' }
    else if v == 6 { '6' }
    else if v == 7 { '7' }
    else if v == 8 { '8' }
    else if v == 9 { '9' }
    else if v == 10 { 'a' }
    else if v == 11 { 'b' }
    else if v == 12 { 'c' }
    else if v == 13 { 'd' }
    else if v == 14 { 'e' }
    else { 'f' }
}

/// Append a byte's two lowercase hex digits.
fn push_byte_hex(out: &mut Vec<char>, b: u8)
    ensures
        final(out)@ == old(out)@ + byte_hex(b as int),
{
    out.push(hex_char_of(b / 16));
    out.push(hex_char_of(b % 16));
    proof {
        assert(final(out)@ =~= old(out)@ + byte_hex(b as int));
    }
}

/// Decode one color channel numeral to its byte.
pub fn parse_channel(s: &Vec<char>, percent: bool) -> (r: Option<u8>)
    ensures
        r is Some <==> channel_byte(s@, percent) is Some,
        r matches Some(b) ==> channel_byte(s@, percent) == Some(b as int),
{
    if percent {
        match parse_decimal(s) {
            None => None,
            Some((w, f, k)) => {
                proof {
                    lemma_digits_val_bound(frac_part(s@));
                    lemma_pow10_pos(k as nat);
                }
                if w >= 256 {
                    proof {
                        lemma_dec_overflow(s@, 100);
                    }
                    None
                } else {
                    let p = pow10_u64(k);
                    proof {
                        assert((w as int) * (p as int) <= 255 * 1000000) by (nonlinear_arith)
                            requires
                                w <= 255,
                                0 <= p <= 1000000,
                        ;
                    }
                    let a: u64 = (w as u64) * p + (f as u64);
                    let b = round_ratio_u64(a * 255, 100 * p);
                    if b <= 255 {
                        Some(b as u8)
                    } else {
                        None
                    }
                }
            },
        }
    } else {
        let n = s.len();
        if n == 0 {
            return None;
        }
        match range_val_sat(s, 0, n) {
            None => {
                proof {
                    assert(s@.subrange(0, n as int) =~= s@);
                }
                None
            },
            Some(v) => {
                proof {
                    assert(s@.subrange(0, n as int) =~= s@);
                }
                if v > 255 {
                    None
                } else {
                    Some(v as u8)
                }
            },
        }
    }
}

/// What the decoder found the alpha numeral to denote.
pub enum AlphaOut {
    Opaque,
    Val(u8),
    Bad,
}

/// Decode the alpha numeral.
pub fn parse_alpha(s: &Vec<char>, percent: bool) -> (r: AlphaOut)
    ensures
        match r {
            AlphaOut::Opaque => alpha_mode(s@, percent) is Opaque,
            AlphaOut::Val(b) => alpha_mode(s@, percent) == AlphaSpec::Value(b as int),
            AlphaOut::Bad => alpha_mode(s@, percent) is Bad,
        },
{
    let scale: u64 = if percent {
        100
    } else {
        1
    };
    match parse_decimal(s) {
        None => AlphaOut::Bad,
        Some((w, f, k)) => {
            proof {
                lemma_digits_val_bound(frac_part(s@));
                lemma_pow10_pos(k as nat);
                lemma_opaque_iff(s@, scale as int);
            }
            if w >= 256 {
                proof {
                    lemma_dec_overflow(s@, scale as int);
                }
                AlphaOut::Bad
            } else if (w as u64) == scale && f == 0 {
                AlphaOut::Opaque
            } else {
                let p = pow10_u64(k);
                proof {
                    assert((w as int) * (p as int) <= 255 * 1000000) by (nonlinear_arith)
                        requires
                            w <= 255,
                            0 <= p <= 1000000,
                    ;
                }
                let a: u64 = (w as u64) * p + (f as u64);
                let b = round_ratio_u64(a * 255, scale * p);
                if b <= 255 {
                    AlphaOut::Val(b as u8)
                } else {
                    AlphaOut::Bad
                }
            }
        },
    }
}

/// Decode a whole `rgb...(...)` run, or report that it is not decodable.
pub fn try_decode_rgb_func(input: &Vec<char>) -> (r: Result<Vec<char>, ()>)
    ensures
        r is Ok <==> rgb_decode(input@) is Some,
        r matches Ok(v) ==> Some(v@) == rgb_decode(input@),
{
    let n = input.len();
    if n < 4 {
        return Err(());
    }
    let mut read: usize = 3;
    if input[3] == 'a' {
        read = 4;
    }
    if read >= n || input[read] != '(' {
        return Err(());
    }
    read += 1;
    let ghost argstart = read as int;
    let mut c0: Vec<char> = Vec::new();
    let mut c1: Vec<char> = Vec::new();
    let mut c2: Vec<char> = Vec::new();
    let mut c3: Vec<char> = Vec::new();
    let mut p0: bool = false;
    let mut p1: bool = false;
    let mut p2: bool = false;
    let mut p3: bool = false;
    let mut idx: usize = 0;
    let mut insep: bool = false;
    let mut closed = false;
    while read < n
        invariant_except_break
            !closed,
        invariant
            argstart <= read <= n,
            n == input@.len(),
            idx <= read,
            rgb_args(
                input@,
                read as int,
                RgbScan {
                    chs: seq![c0@, c1@, c2@, c3@],
                    pcs: seq![p0, p1, p2, p3],
                    idx: idx as int,
                    insep: insep,
                },
            ) == rgb_args(input@, argstart, rgb_scan_init()),
            rgb_decode(input@) == (match rgb_args(input@, argstart, rgb_scan_init()) {
                Some(fin) => rgb_finish(fin),
                None => None::<Seq<char>>,
            }),
        ensures
            closed ==> read < n && input@[read as int] == ')',
            !closed ==> read >= n,
        decreases n - read,
    {
        let ghost st_before = RgbScan {
            chs: seq![c0@, c1@, c2@, c3@],
            pcs: seq![p0, p1, p2, p3],
            idx: idx as int,
            insep: insep,
        };
        let c = input[read];
        if c == ')' {
            closed = true;
            break;
        }
        if !decodable(c) {
            proof {
                assert(rgb_args(input@, read as int, st_before) is None);
            }
            return Err(());
        }
        if digit(c) || c == '.' {
            if idx > 3 {
                proof {
                    assert(rgb_args(input@, read as int, st_before) is None);
                }
                return Err(());
            }
            if idx == 0 {
                c0.push(c);
            } else if idx == 1 {
                c1.push(c);
            } else if idx == 2 {
                c2.push(c);
            } else {
                c3.push(c);
            }
            insep = false;
            proof {
                let st_after = RgbScan {
                    chs: seq![c0@, c1@, c2@, c3@],
                    pcs: seq![p0, p1, p2, p3],
                    idx: idx as int,
                    insep: false,
                };
                assert(seq![c0@, c1@, c2@, c3@] =~= st_before.chs.update(
                    st_before.idx,
                    st_before.chs[st_before.idx].push(c),
                ));
                assert(rgb_args(input@, read as int, st_before) == rgb_args(
                    input@,
                    read as int + 1,
                    st_after,
                ));
            }
        } else if c == '%' {
            if idx > 3 {
                proof {
                    assert(rgb_args(input@, read as int, st_before) is None);
                }
                return Err(());
            }
            if idx == 0 {
                p0 = true;
            } else if idx == 1 {
                p1 = true;
            } else if idx == 2 {
                p2 = true;
            } else {
                p3 = true;
            }
            insep = false;
            proof {
                let st_after = RgbScan {
                    chs: seq![c0@, c1@, c2@, c3@],
                    pcs: seq![p0, p1, p2, p3],
                    idx: idx as int,
                    insep: false,
                };
                assert(seq![p0, p1, p2, p3] =~= st_before.pcs.update(st_before.idx, true));
                assert(rgb_args(input@, read as int, st_before) == rgb_args(
                    input@,
                    read as int + 1,
                    st_after,
                ));
            }
        } else {
            if !insep {
                idx += 1;
                insep = true;
            }
            proof {
                let st_after = RgbScan {
                    chs: seq![c0@, c1@, c2@, c3@],
                    pcs: seq![p0, p1, p2, p3],
                    idx: idx as int,
                    insep: insep,
                };
                assert(rgb_args(input@, read as int, st_before) == rgb_args(
                    input@,
                    read as int + 1,
                    st_after,
                ));
            }
        }
        read += 1;
    }
    if !closed {
        proof {
            assert(rgb_args(
                input@,
                read as int,
                RgbScan {
                    chs: seq![c0@, c1@, c2@, c3@],
                    pcs: seq![p0, p1, p2, p3],
                    idx: idx as int,
                    insep: insep,
                },
            ) is None);
        }
        return Err(());
    }
    let ghost st = RgbScan {
        chs: seq![c0@, c1@, c2@, c3@],
        pcs: seq![p0, p1, p2, p3],
        idx: idx as int,
        insep: insep,
    };
    proof {
        assert(rgb_args(input@, argstart, rgb_scan_init()) == Some(st));
        assert(rgb_decode(input@) == rgb_finish(st));
        assert(st.chs[0] == c0@ && st.chs[1] == c1@ && st.chs[2] == c2@ && st.chs[3] == c3@);
        assert(st.pcs[0] == p0 && st.pcs[1] == p1 && st.pcs[2] == p2 && st.pcs[3] == p3);
    }
    let b0 = match parse_channel(&c0, p0) {
        Some(b) => b,
        None => {
            return Err(());
        },
    };
    let b1 = match parse_channel(&c1, p1) {
        Some(b) => b,
        None => {
            return Err(());
        },
    };
    let b2 = match parse_channel(&c2, p2) {
        Some(b) => b,
        None => {
            return Err(());
        },
    };
    let mut out: Vec<char> = Vec::new();
    out.push('#');
    push_byte_hex(&mut out, b0);
    push_byte_hex(&mut out, b1);
    push_byte_hex(&mut out, b2);
    proof {
        assert(out@ =~= seq!['#'] + byte_hex(b0 as int) + byte_hex(b1 as int) + byte_hex(
            b2 as int,
        ));
    }
    if c3.len() == 0 {
        return Ok(out);
    }
    match parse_alpha(&c3, p3) {
        AlphaOut::Opaque => Ok(out),
        AlphaOut::Val(a) => {
            push_byte_hex(&mut out, a);
            Ok(out)
        },
        AlphaOut::Bad => Err(()),
    }
}

} // verus!
