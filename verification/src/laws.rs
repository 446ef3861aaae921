//! The library's proved laws: quoted text survives minification
//! unmodified and in order; whitespace is collapsed, never doubled in
//! the normalized buffer outside quoted spans; and on quote-free input
//! the minified text carries no doubled space, none after `{`, and none
//! before `}` or `;`.

use vstd::prelude::*;
use crate::lex::{is_quote, is_css_ws, is_hex_digit};
use crate::normalize::{spec_normalize, norm_at, norm_init, NormMode, NormState};
use crate::structure::{
    min_at,
    span_map,
    span_table_wf,
    pop_space,
    pop_semi,
    remove_br,
    skip_space,
    hex_run_end,
    rgb_run_end,
    lemma_hex_run_end,
    lemma_rgb_run_end,
    lemma_norm_at_wf,
    lemma_spans_ordered,
    lemma_span_map_contains,
    reshorten,
    rgb_trigger,
    lemma_step_quote,
    lemma_step_open,
    lemma_step_close,
    lemma_step_pseudo,
    lemma_step_colon,
    lemma_step_comma,
    lemma_step_semi,
    lemma_step_hex,
    lemma_step_rgb,
    lemma_step_plain,
};
use crate::{spec_minify, spec_warns};

verus! {

/// Dropping a trailing non-quote character leaves a quote-ended region
/// untouched.
proof fn lemma_drop_keeps(xs: Seq<char>, ys: Seq<char>, p: int, len: int)
    requires
        ys == xs || (xs.len() > 0 && !is_quote(xs.last()) && ys == xs.drop_last()),
        0 <= p,
        1 <= len,
        p + len <= xs.len(),
        is_quote(xs[p]),
        is_quote(xs[p + len - 1]),
    ensures
        p + len <= ys.len(),
        ys.subrange(p, p + len) == xs.subrange(p, p + len),
        is_quote(ys[p]),
        is_quote(ys[p + len - 1]),
{
    if ys != xs {
        assert(p + len - 1 != xs.len() - 1);
        assert(ys.subrange(p, p + len) =~= xs.subrange(p, p + len));
        assert(ys[p] == xs[p]);
        assert(ys[p + len - 1] == xs[p + len - 1]);
    }
}

/// Chain one walk step with the preservation of a region through the
/// rest of the walk.
proof fn region_step(
    s: Seq<char>,
    q: Map<int, int>,
    i: int,
    out: Seq<char>,
    br: Option<int>,
    i2: int,
    out2: Seq<char>,
    br2: Option<int>,
    p: int,
    p2: int,
    len: int,
)
    requires
        min_at(s, q, i, out, br) == min_at(s, q, i2, out2, br2),
        0 <= i2 <= s.len(),
        0 <= p2,
        1 <= len,
        p2 + len <= out2.len(),
        is_quote(out2[p2]),
        is_quote(out2[p2 + len - 1]),
        (br2 matches Some(b) ==> 0 <= b && (b < p2 || p2 + len <= b)),
        out2.subrange(p2, p2 + len) == out.subrange(p, p + len),
    ensures
        exists|pp: int|
            0 <= pp && pp + len <= min_at(s, q, i, out, br).len() && #[trigger] min_at(
                s,
                q,
                i,
                out,
                br,
            ).subrange(pp, pp + len) == out.subrange(p, p + len),
    decreases s.len() - i2, 1int,
{
    lemma_region_kept(s, q, i2, out2, br2, p2, len);
    let r2 = min_at(s, q, i2, out2, br2);
    let pp = choose|pp: int|
        0 <= pp && pp + len <= r2.len() && #[trigger] r2.subrange(pp, pp + len) == out2.subrange(
            p2,
            p2 + len,
        );
    assert(min_at(s, q, i, out, br).subrange(pp, pp + len) == out.subrange(p, p + len));
}

/// A region of the output that begins and ends with a quote character,
/// and that the live backreference does not point into, survives the
/// rest of the walk contiguously and unmodified.
proof fn lemma_region_kept(
    s: Seq<char>,
    q: Map<int, int>,
    i: int,
    out: Seq<char>,
    br: Option<int>,
    p: int,
    len: int,
)
    requires
        0 <= i <= s.len(),
        0 <= p,
        1 <= len,
        p + len <= out.len(),
        is_quote(out[p]),
        is_quote(out[p + len - 1]),
        (br matches Some(b) ==> 0 <= b && (b < p || p + len <= b)),
    ensures
        exists|pp: int|
            0 <= pp && pp + len <= min_at(s, q, i, out, br).len() && #[trigger] min_at(
                s,
                q,
                i,
                out,
                br,
            ).subrange(pp, pp + len) == out.subrange(p, p + len),
    decreases s.len() - i, 0int,
{
    let r = min_at(s, q, i, out, br);
    if i >= s.len() {
        assert(r.subrange(p, p + len) == out.subrange(p, p + len));
    } else {
        let c = s[i];
        if is_quote(c) && q.dom().contains(i) && i <= q[i] < s.len() {
            lemma_step_quote(s, q, i, out, br);
            let out2 = out + s.subrange(i, q[i] + 1);
            assert(out2.subrange(p, p + len) =~= out.subrange(p, p + len));
            assert(out2[p] == out[p] && out2[p + len - 1] == out[p + len - 1]);
            region_step(s, q, i, out, br, q[i] + 1, out2, br, p, p, len);
        } else if c == '{' {
            lemma_step_open(s, q, i, out, br);
            lemma_drop_keeps(out, pop_space(out), p, len);
            let out2 = pop_space(out).push('{');
            assert(out2.subrange(p, p + len) =~= pop_space(out).subrange(p, p + len));
            assert(out2[p] == pop_space(out)[p] && out2[p + len - 1] == pop_space(out)[p + len
                - 1]);
            region_step(s, q, i, out, br, skip_space(s, i + 1), out2, None, p, p, len);
        } else if c == '}' || c == ';' {
            if c == '}' {
                lemma_step_close(s, q, i, out, br);
            } else {
                lemma_step_semi(s, q, i, out, br);
            }
            let outr = remove_br(out, br);
            let pr: int = match br {
                Some(b) => if 0 <= b < out.len() && b < p {
                    p - 1
                } else {
                    p
                },
                None => p,
            };
            assert(outr.subrange(pr, pr + len) =~= out.subrange(p, p + len));
            assert(outr[pr] == out[p] && outr[pr + len - 1] == out[p + len - 1]);
            lemma_drop_keeps(outr, pop_space(outr), pr, len);
            let outp = if c == '}' {
                pop_semi(pop_space(outr))
            } else {
                pop_space(outr)
            };
            if c == '}' {
                lemma_drop_keeps(pop_space(outr), outp, pr, len);
            }
            let out2 = outp.push(if c == '}' {
                '}'
            } else {
                ';'
            });
            assert(out2.subrange(pr, pr + len) =~= outp.subrange(pr, pr + len));
            assert(out2[pr] == outp[pr] && out2[pr + len - 1] == outp[pr + len - 1]);
            region_step(s, q, i, out, br, skip_space(s, i + 1), out2, None, p, pr, len);
        } else if c == ':' {
            if i + 1 < s.len() && s[i + 1] == ':' {
                lemma_step_pseudo(s, q, i, out, br);
                let out2 = out.push(':').push(':');
                assert(out2.subrange(p, p + len) =~= out.subrange(p, p + len));
                assert(out2[p] == out[p] && out2[p + len - 1] == out[p + len - 1]);
                region_step(s, q, i, out, br, i + 2, out2, None, p, p, len);
            } else {
                lemma_step_colon(s, q, i, out, br);
                let nbr: Option<int> = if out.len() > 0 && out.last() == ' ' {
                    Some(out.len() - 1)
                } else {
                    None
                };
                let out2 = out.push(':');
                assert(out2.subrange(p, p + len) =~= out.subrange(p, p + len));
                assert(out2[p] == out[p] && out2[p + len - 1] == out[p + len - 1]);
                assert(nbr matches Some(b) ==> b == out.len() - 1 && out[b] == ' ');
                region_step(s, q, i, out, br, skip_space(s, i + 1), out2, nbr, p, p, len);
            }
        } else if c == ',' {
            lemma_step_comma(s, q, i, out, br);
            lemma_drop_keeps(out, pop_space(out), p, len);
            let out2 = pop_space(out).push(',');
            assert(out2.subrange(p, p + len) =~= pop_space(out).subrange(p, p + len));
            assert(out2[p] == pop_space(out)[p] && out2[p + len - 1] == pop_space(out)[p + len
                - 1]);
            region_step(s, q, i, out, br, skip_space(s, i + 1), out2, br, p, p, len);
        } else if c == '#' && i + 3 < s.len() {
            lemma_step_hex(s, q, i, out, br);
            lemma_hex_run_end(s, i + 1);
            let e = hex_run_end(s, i + 1);
            match crate::color::hex_shorten(s.subrange(i, e)) {
                Some(h) => {
                    let out2 = out + h;
                    assert(out2.subrange(p, p + len) =~= out.subrange(p, p + len));
                    assert(out2[p] == out[p] && out2[p + len - 1] == out[p + len - 1]);
                    region_step(s, q, i, out, br, e, out2, br, p, p, len);
                },
                None => {
                    let out2 = out.push('#');
                    assert(out2.subrange(p, p + len) =~= out.subrange(p, p + len));
                    assert(out2[p] == out[p] && out2[p + len - 1] == out[p + len - 1]);
                    region_step(s, q, i, out, br, i + 1, out2, br, p, p, len);
                },
            }
        } else if c == 'r' && rgb_trigger(s, i) {
            lemma_step_rgb(s, q, i, out, br);
            let p0: int = if s[i + 4] == '(' {
                i + 5
            } else {
                i + 4
            };
            lemma_rgb_run_end(s, p0);
            let e = rgb_run_end(s, p0);
            if e < s.len() && s[e] == ')' {
                match crate::rgb::rgb_decode(s.subrange(i, e + 1)) {
                    Some(h) => {
                        let out2 = out + reshorten(h);
                        assert(out2.subrange(p, p + len) =~= out.subrange(p, p + len));
                        assert(out2[p] == out[p] && out2[p + len - 1] == out[p + len - 1]);
                        region_step(s, q, i, out, br, e + 1, out2, br, p, p, len);
                    },
                    None => {
                        let out2 = out.push('r');
                        assert(out2.subrange(p, p + len) =~= out.subrange(p, p + len));
                        assert(out2[p] == out[p] && out2[p + len - 1] == out[p + len - 1]);
                        region_step(s, q, i, out, br, i + 1, out2, br, p, p, len);
                    },
                }
            } else {
                let out2 = out.push('r');
                assert(out2.subrange(p, p + len) =~= out.subrange(p, p + len));
                assert(out2[p] == out[p] && out2[p + len - 1] == out[p + len - 1]);
                region_step(s, q, i, out, br, i + 1, out2, br, p, p, len);
            }
        } else {
            lemma_step_plain(s, q, i, out, br);
            let out2 = out.push(c);
            assert(out2.subrange(p, p + len) =~= out.subrange(p, p + len));
            assert(out2[p] == out[p] && out2[p + len - 1] == out[p + len - 1]);
            region_step(s, q, i, out, br, i + 1, out2, br, p, p, len);
        }
    }
}

/// A live backreference always points at a space directly before a colon.
spec fn br_ok(out: Seq<char>, br: Option<int>) -> bool {
    br matches Some(b) ==> 0 <= b && b + 1 < out.len() && out[b] == ' ' && out[b + 1] == ':'
}

/// Every recorded span ends with a quote character, except one that runs
/// to the end of the buffer.
spec fn span_ends_ok(s: Seq<char>, sp: Seq<(int, int)>) -> bool {
    forall|k: int|
        0 <= k < sp.len() ==> is_quote(s[(#[trigger] sp[k]).1]) || sp[k].1 == s.len() - 1
}

/// An offset the span map covers is the start of some span, mapped to
/// that span's end.
proof fn lemma_span_map_covers(sp: Seq<(int, int)>, x: int)
    requires
        span_map(sp).dom().contains(x),
    ensures
        exists|j: int|
            0 <= j < sp.len() && (#[trigger] sp[j]).0 == x && span_map(sp)[x] == sp[j].1,
    decreases sp.len(),
{
    if sp.len() > 0 {
        if sp.last().0 == x {
            assert(sp[sp.len() - 1].0 == x && span_map(sp)[x] == sp[sp.len() - 1].1);
        } else {
            lemma_span_map_covers(sp.drop_last(), x);
            let j = choose|j: int|
                0 <= j < sp.drop_last().len() && (#[trigger] sp.drop_last()[j]).0 == x
                    && span_map(sp.drop_last())[x] == sp.drop_last()[j].1;
            assert(sp[j].0 == x && span_map(sp)[x] == sp[j].1);
        }
    }
}

/// The walk reaches every span that still lies ahead and copies it into
/// the output, where it then survives to the end: the final text contains
/// the span's characters contiguously and unmodified.
proof fn lemma_span_carried(
    s: Seq<char>,
    sp: Seq<(int, int)>,
    i: int,
    out: Seq<char>,
    br: Option<int>,
    k: int,
)
    requires
        span_table_wf(s, sp),
        span_ends_ok(s, sp),
        0 <= i <= s.len(),
        br_ok(out, br),
        0 <= k < sp.len(),
        sp[k].0 >= i,
    ensures
        exists|pp: int|
            0 <= pp && pp + (sp[k].1 - sp[k].0 + 1) <= min_at(
                s,
                span_map(sp),
                i,
                out,
                br,
            ).len() && #[trigger] min_at(s, span_map(sp), i, out, br).subrange(
                pp,
                pp + (sp[k].1 - sp[k].0 + 1),
            ) == s.subrange(sp[k].0, sp[k].1 + 1),
    decreases s.len() - i,
{
    let q = span_map(sp);
    let r = min_at(s, q, i, out, br);
    let lk = sp[k].1 - sp[k].0 + 1;
    let target = s.subrange(sp[k].0, sp[k].1 + 1);
    lemma_spans_ordered(s, sp);
    assert forall|k2: int, l2: int| 0 <= k2 < l2 < sp.len() implies (#[trigger] sp[k2]).0 < (
    #[trigger] sp[l2]).0 by {
        assert(sp[k2].0 <= sp[k2].1 < sp[l2].0);
    }
    assert(i < s.len());
    let c = s[i];
    if is_quote(c) && q.dom().contains(i) && i <= q[i] < s.len() {
        lemma_step_quote(s, q, i, out, br);
        lemma_span_map_covers(sp, i);
        let j = choose|j: int|
            0 <= j < sp.len() && (#[trigger] sp[j]).0 == i && span_map(sp)[i] == sp[j].1;
        let out2 = out + s.subrange(i, q[i] + 1);
        if sp[k].0 == i {
            // this very span is copied now; it ends at out2's end
            assert(j == k) by {
                if j != k {
                    assert(sp[j].0 != sp[k].0);
                }
            }
            let p = out.len() as int;
            assert(out2.subrange(p, p + lk) =~= target);
            if is_quote(s[sp[k].1]) {
                assert(is_quote(out2[p]) && is_quote(out2[p + lk - 1]));
                assert(br_ok(out, br));
                assert(br matches Some(b) ==> b < p);
                lemma_region_kept(s, q, q[i] + 1, out2, br, p, lk);
                let pp = choose|pp: int|
                    0 <= pp && pp + lk <= min_at(s, q, q[i] + 1, out2, br).len() && #[trigger]
                    min_at(s, q, q[i] + 1, out2, br).subrange(pp, pp + lk) == out2.subrange(
                        p,
                        p + lk,
                    );
                assert(r.subrange(pp, pp + lk) == target);
            } else {
                // the unterminated final span: the walk ends right after it
                assert(sp[k].1 == s.len() - 1);
                assert(r == out2);
                assert(r.subrange(p, p + lk) == target);
            }
        } else {
            // a span before `k` is copied; `k` still lies ahead
            assert(j < k) by {
                if j >= k {
                    assert(sp[j].0 >= sp[k].0);
                }
            }
            assert(sp[j].1 < sp[k].0);
            lemma_span_carried(s, sp, q[i] + 1, out2, br, k);
            let pp = choose|pp: int|
                0 <= pp && pp + lk <= min_at(s, q, q[i] + 1, out2, br).len() && #[trigger] min_at(
                    s,
                    q,
                    q[i] + 1,
                    out2,
                    br,
                ).subrange(pp, pp + lk) == target;
            assert(r.subrange(pp, pp + lk) == target);
        }
    } else {
        // one plain step; the span stays ahead because every character
        // passed over is not a quote character, while a span starts with one
        if c == '{' {
            lemma_step_open(s, q, i, out, br);
            let i2 = skip_space(s, i + 1);
            let out2 = pop_space(out).push('{');
            assert(sp[k].0 >= i2) by {
                if sp[k].0 < i2 {
                    assert(!is_quote(s[sp[k].0]));
                }
            }
            lemma_span_carried(s, sp, i2, out2, None, k);
            carry_witness(s, q, i, out, br, i2, out2, None, k, sp[k].0, sp[k].1);
        } else if c == '}' || c == ';' {
            if c == '}' {
                lemma_step_close(s, q, i, out, br);
            } else {
                lemma_step_semi(s, q, i, out, br);
            }
            let i2 = skip_space(s, i + 1);
            let out2 = if c == '}' {
                pop_semi(pop_space(remove_br(out, br))).push('}')
            } else {
                pop_space(remove_br(out, br)).push(';')
            };
            assert(sp[k].0 >= i2) by {
                if sp[k].0 < i2 {
                    assert(!is_quote(s[sp[k].0]));
                }
            }
            lemma_span_carried(s, sp, i2, out2, None, k);
            carry_witness(s, q, i, out, br, i2, out2, None, k, sp[k].0, sp[k].1);
        } else if c == ':' {
            if i + 1 < s.len() && s[i + 1] == ':' {
                lemma_step_pseudo(s, q, i, out, br);
                let out2 = out.push(':').push(':');
                assert(sp[k].0 >= i + 2) by {
                    if sp[k].0 < i + 2 {
                        assert(!is_quote(s[sp[k].0]));
                    }
                }
                lemma_span_carried(s, sp, i + 2, out2, None, k);
                carry_witness(s, q, i, out, br, i + 2, out2, None, k, sp[k].0, sp[k].1);
            } else {
                lemma_step_colon(s, q, i, out, br);
                let i2 = skip_space(s, i + 1);
                let out2 = out.push(':');
                let nbr: Option<int> = if out.len() > 0 && out.last() == ' ' {
                    Some(out.len() - 1)
                } else {
                    None
                };
                assert(sp[k].0 >= i2) by {
                    if sp[k].0 < i2 {
                        assert(!is_quote(s[sp[k].0]));
                    }
                }
                assert(br_ok(out2, nbr));
                lemma_span_carried(s, sp, i2, out2, nbr, k);
                carry_witness(s, q, i, out, br, i2, out2, nbr, k, sp[k].0, sp[k].1);
            }
        } else if c == ',' {
            lemma_step_comma(s, q, i, out, br);
            let i2 = skip_space(s, i + 1);
            let out2 = pop_space(out).push(',');
            assert(sp[k].0 >= i2) by {
                if sp[k].0 < i2 {
                    assert(!is_quote(s[sp[k].0]));
                }
            }
            assert(br_ok(out2, br)) by {
                if out.len() > 0 && out.last() == ' ' {
                    match br {
                        Some(b) => {
                            assert(out[b + 1] == ':');
                            assert(b + 1 != out.len() - 1);
                        },
                        None => {},
                    }
                }
            }
            lemma_span_carried(s, sp, i2, out2, br, k);
            carry_witness(s, q, i, out, br, i2, out2, br, k, sp[k].0, sp[k].1);
        } else if c == '#' && i + 3 < s.len() {
            lemma_step_hex(s, q, i, out, br);
            lemma_hex_run_end(s, i + 1);
            let e = hex_run_end(s, i + 1);
            match crate::color::hex_shorten(s.subrange(i, e)) {
                Some(h) => {
                    let out2 = out + h;
                    assert(sp[k].0 >= e) by {
                        if sp[k].0 < e {
                            assert(!is_quote(s[sp[k].0]));
                        }
                    }
                    assert(br_ok(out2, br));
                    lemma_span_carried(s, sp, e, out2, br, k);
                    carry_witness(s, q, i, out, br, e, out2, br, k, sp[k].0, sp[k].1);
                },
                None => {
                    let out2 = out.push('#');
                    lemma_span_carried(s, sp, i + 1, out2, br, k);
                    carry_witness(s, q, i, out, br, i + 1, out2, br, k, sp[k].0, sp[k].1);
                },
            }
        } else if c == 'r' && rgb_trigger(s, i) {
            lemma_step_rgb(s, q, i, out, br);
            let p0: int = if s[i + 4] == '(' {
                i + 5
            } else {
                i + 4
            };
            lemma_rgb_run_end(s, p0);
            let e = rgb_run_end(s, p0);
            if e < s.len() && s[e] == ')' {
                match crate::rgb::rgb_decode(s.subrange(i, e + 1)) {
                    Some(h) => {
                        let out2 = out + reshorten(h);
                        assert(sp[k].0 >= e + 1) by {
                            if sp[k].0 < e + 1 {
                                assert(!is_quote(s[sp[k].0]));
                            }
                        }
                        assert(br_ok(out2, br));
                        lemma_span_carried(s, sp, e + 1, out2, br, k);
                        carry_witness(s, q, i, out, br, e + 1, out2, br, k, sp[k].0, sp[k].1);
                    },
                    None => {
                        let out2 = out.push('r');
                        lemma_span_carried(s, sp, i + 1, out2, br, k);
                        carry_witness(s, q, i, out, br, i + 1, out2, br, k, sp[k].0, sp[k].1);
                    },
                }
            } else {
                let out2 = out.push('r');
                lemma_span_carried(s, sp, i + 1, out2, br, k);
                carry_witness(s, q, i, out, br, i + 1, out2, br, k, sp[k].0, sp[k].1);
            }
        } else {
            lemma_step_plain(s, q, i, out, br);
            let out2 = out.push(c);
            assert(sp[k].0 >= i + 1) by {
                if sp[k].0 == i {
                    assert(is_quote(s[i]));
                    lemma_span_map_contains(sp, k);
                }
            }
            lemma_span_carried(s, sp, i + 1, out2, br, k);
            carry_witness(s, q, i, out, br, i + 1, out2, br, k, sp[k].0, sp[k].1);
        }
    }
}

/// Transfer the carried-span witness across one step equality.
proof fn carry_witness(
    s: Seq<char>,
    q: Map<int, int>,
    i: int,
    out: Seq<char>,
    br: Option<int>,
    i2: int,
    out2: Seq<char>,
    br2: Option<int>,
    k: int,
    a: int,
    b: int,
)
    requires
        min_at(s, q, i, out, br) == min_at(s, q, i2, out2, br2),
        exists|pp: int|
            0 <= pp && pp + (b - a + 1) <= min_at(s, q, i2, out2, br2).len() && #[trigger] min_at(
                s,
                q,
                i2,
                out2,
                br2,
            ).subrange(pp, pp + (b - a + 1)) == s.subrange(a, b + 1),
    ensures
        exists|pp: int|
            0 <= pp && pp + (b - a + 1) <= min_at(s, q, i, out, br).len() && #[trigger] min_at(
                s,
                q,
                i,
                out,
                br,
            ).subrange(pp, pp + (b - a + 1)) == s.subrange(a, b + 1),
{
}

/// QUOTE INTEGRITY: every quoted string the normalizer records — the
/// source characters from `src[k].0` through `src[k].1`, the opening and
/// closing quote characters included — appears in the minified text
/// contiguously, unmodified and in order.
pub proof fn lemma_quote_integrity(x: Seq<char>, k: int)
    requires
        0 <= k < spec_normalize(x).spans.len(),
    ensures
        ({
            let nr = spec_normalize(x);
            let quoted = x.subrange(nr.src[k].0, nr.src[k].1 + 1);
            &&& 0 <= nr.src[k].0 <= nr.src[k].1 < x.len()
            &&& quoted == nr.out.subrange(nr.spans[k].0, nr.spans[k].1 + 1)
            &&& exists|pp: int|
                0 <= pp && pp + quoted.len() <= spec_minify(x).len() && #[trigger] spec_minify(
                    x,
                ).subrange(pp, pp + quoted.len() as int) == quoted
        }),
{
    lemma_norm_at_wf(x, 0, NormMode::Normal, norm_init());
    let nr = spec_normalize(x);
    let quoted = x.subrange(nr.src[k].0, nr.src[k].1 + 1);
    assert(span_ends_ok(nr.out, nr.spans));
    lemma_span_carried(nr.out, nr.spans, 0, Seq::empty(), None, k);
    let lk = nr.spans[k].1 - nr.spans[k].0 + 1;
    let target = nr.out.subrange(nr.spans[k].0, nr.spans[k].1 + 1);
    let pp = choose|pp: int|
        0 <= pp && pp + lk <= spec_minify(x).len() && #[trigger] spec_minify(x).subrange(
            pp,
            pp + lk,
        ) == target;
    assert(quoted.len() == lk);
    assert(spec_minify(x).subrange(pp, pp + quoted.len() as int) == quoted);
}

/// A pair of adjacent spaces at `t` lies inside a recorded span, or
/// inside the quoted string still being scanned.
spec fn pair_covered(m: NormMode, st: NormState, t: int) -> bool {
    ||| exists|k: int|
        0 <= k < st.spans.len() && (#[trigger] st.spans[k]).0 <= t && t + 1 <= st.spans[k].1
    ||| (m matches NormMode::InQuote { start, .. } && start <= t)
}

/// What the whitespace argument needs of the scanner's running state.
spec fn ws_at(m: NormMode, st: NormState) -> bool {
    &&& forall|k: int|
        0 <= k < st.spans.len() ==> 0 <= (#[trigger] st.spans[k]).0 <= st.spans[k].1
            < st.out.len()
    &&& forall|k: int| 0 <= k < st.spans.len() ==> is_quote(st.out[(#[trigger] st.spans[k]).1])
    &&& (st.out.len() > 0 ==> st.out[0] != ' ')
    &&& (m matches NormMode::InQuote { q, start, src_start } ==> is_quote(q) && 0 <= start
        < st.out.len())
    &&& forall|t: int|
        0 <= t < st.out.len() - 1 && (#[trigger] st.out[t]) == ' ' && st.out[t + 1] == ' '
            ==> pair_covered(m, st, t)
}

/// The collapse claim of a finished scan: the buffer never begins with
/// a space, and adjacent spaces lie only inside recorded quote spans.
pub open spec fn ws_final(r: NormState) -> bool {
    &&& (r.out.len() > 0 ==> r.out[0] != ' ')
    &&& forall|t: int|
        0 <= t < r.out.len() - 1 && (#[trigger] r.out[t]) == ' ' && r.out[t + 1] == ' '
            ==> exists|k: int|
            0 <= k < r.spans.len() && (#[trigger] r.spans[k]).0 <= t && t + 1 <= r.spans[k].1
}

/// The normalizing scan keeps whitespace collapsed.
proof fn lemma_norm_at_ws(s: Seq<char>, i: int, m: NormMode, st: NormState)
    requires
        0 <= i <= s.len(),
        ws_at(m, st),
    ensures
        ws_final(norm_at(s, i, m, st)),
    decreases s.len() - i,
{
    if i >= s.len() {
        match m {
            NormMode::Normal => {
                let r = norm_at(s, i, m, st);
                assert(r == st);
                assert forall|t: int|
                    0 <= t < r.out.len() - 1 && (#[trigger] r.out[t]) == ' ' && r.out[t + 1]
                        == ' ' implies exists|k: int|
                    0 <= k < r.spans.len() && (#[trigger] r.spans[k]).0 <= t && t + 1
                        <= r.spans[k].1 by {
                    assert(pair_covered(m, st, t));
                    let k = choose|k: int|
                        0 <= k < st.spans.len() && (#[trigger] st.spans[k]).0 <= t && t + 1
                            <= st.spans[k].1;
                    assert(0 <= k < r.spans.len() && r.spans[k].0 <= t && t + 1 <= r.spans[k].1);
                }
            },
            NormMode::InComment { star } => {
                let r = norm_at(s, i, m, st);
                assert(r.out == st.out && r.spans == st.spans);
                assert forall|t: int|
                    0 <= t < r.out.len() - 1 && (#[trigger] r.out[t]) == ' ' && r.out[t + 1]
                        == ' ' implies exists|k: int|
                    0 <= k < r.spans.len() && (#[trigger] r.spans[k]).0 <= t && t + 1
                        <= r.spans[k].1 by {
                    assert(pair_covered(m, st, t));
                    let k = choose|k: int|
                        0 <= k < st.spans.len() && (#[trigger] st.spans[k]).0 <= t && t + 1
                            <= st.spans[k].1;
                    assert(0 <= k < r.spans.len() && r.spans[k].0 <= t && t + 1 <= r.spans[k].1);
                }
            },
            NormMode::InQuote { q, start, src_start } => {
                let r = norm_at(s, i, m, st);
                assert forall|t: int|
                    0 <= t < r.out.len() - 1 && (#[trigger] r.out[t]) == ' ' && r.out[t + 1]
                        == ' ' implies exists|k: int|
                    0 <= k < r.spans.len() && (#[trigger] r.spans[k]).0 <= t && t + 1
                        <= r.spans[k].1 by {
                    if pair_covered(m, st, t) {
                        if start <= t {
                            let kk = r.spans.len() - 1;
                            assert(r.spans[kk].0 <= t && t + 1 <= r.spans[kk].1);
                        } else {
                            let k = choose|k: int|
                                0 <= k < st.spans.len() && (#[trigger] st.spans[k]).0 <= t && t + 1
                                    <= st.spans[k].1;
                            assert(r.spans[k] == st.spans[k]);
                        }
                    }
                }
            },
        }
    } else {
        let c = s[i];
        match m {
            NormMode::Normal => {
                if is_css_ws(c) {
                    let out1 = if st.out.len() > 0 && st.out.last() == ' ' {
                        st.out.drop_last()
                    } else {
                        st.out
                    };
                    let out2 = if out1.len() > 0 && i + 1 < s.len() {
                        out1.push(' ')
                    } else {
                        out1
                    };
                    let st2 = NormState { out: out2, spans: st.spans, src: st.src, warns: st.warns };
                    // the pop cannot expose a second trailing space: that
                    // pair would have to lie in a span ending at the last
                    // index, whose character is a quote, not a space
                    assert(out1.len() > 0 ==> out1.last() != ' ') by {
                        if out1.len() > 0 && out1.last() == ' ' && out1 != st.out {
                            assert(st.out[st.out.len() - 2] == ' ' && st.out[st.out.len() - 1]
                                == ' ');
                            assert(pair_covered(m, st, st.out.len() - 2));
                            let k = choose|k: int|
                                0 <= k < st.spans.len() && (#[trigger] st.spans[k]).0 <= st.out.len()
                                    - 2 && st.out.len() - 1 <= st.spans[k].1;
                            assert(is_quote(st.out[st.spans[k].1]));
                        }
                    }
                    assert(ws_at(NormMode::Normal, st2)) by {
                        assert forall|k: int| 0 <= k < st2.spans.len() implies 0 <= (
                        #[trigger] st2.spans[k]).0 <= st2.spans[k].1 < st2.out.len() && is_quote(
                            st2.out[st2.spans[k].1],
                        ) by {
                            assert(is_quote(st.out[st.spans[k].1]));
                            assert(st.spans[k].1 < out1.len());
                            assert(out1[st.spans[k].1] == st.out[st.spans[k].1]);
                        }
                        assert forall|t: int|
                            0 <= t < st2.out.len() - 1 && (#[trigger] st2.out[t]) == ' '
                                && st2.out[t + 1] == ' ' implies pair_covered(
                            NormMode::Normal,
                            st2,
                            t,
                        ) by {
                            if out2 != out1 && t + 1 == out1.len() {
                                assert(st2.out[t] == out1[out1.len() - 1]);
                            } else {
                                assert(st2.out[t] == st.out[t] && st2.out[t + 1] == st.out[t + 1]);
                                assert(pair_covered(m, st, t));
                                let k = choose|k: int|
                                    0 <= k < st.spans.len() && (#[trigger] st.spans[k]).0 <= t && t
                                        + 1 <= st.spans[k].1;
                                assert(st2.spans[k].0 <= t && t + 1 <= st2.spans[k].1);
                            }
                        }
                    }
                    assert(norm_at(s, i, m, st) == norm_at(s, i + 1, NormMode::Normal, st2));
                    lemma_norm_at_ws(s, i + 1, NormMode::Normal, st2);
                } else if c == '/' && i + 1 < s.len() && s[i + 1] == '*' {
                    assert(ws_at(NormMode::InComment { star: false }, st));
                    assert(norm_at(s, i, m, st) == norm_at(s, i + 2, NormMode::InComment { star: false }, st));
                    lemma_norm_at_ws(s, i + 2, NormMode::InComment { star: false }, st);
                } else if is_quote(c) {
                    let m2 = NormMode::InQuote { q: c, start: st.out.len() as int, src_start: i };
                    let st2 = NormState {
                        out: st.out.push(c),
                        spans: st.spans,
                        src: st.src,
                        warns: st.warns,
                    };
                    assert(ws_at(m2, st2)) by {
                        assert forall|t: int|
                            0 <= t < st2.out.len() - 1 && (#[trigger] st2.out[t]) == ' '
                                && st2.out[t + 1] == ' ' implies pair_covered(m2, st2, t) by {
                            assert(st2.out[t] == st.out[t]);
                            if t + 1 < st.out.len() {
                                assert(st2.out[t + 1] == st.out[t + 1]);
                                assert(pair_covered(m, st, t));
                                let k = choose|k: int|
                                    0 <= k < st.spans.len() && (#[trigger] st.spans[k]).0 <= t && t
                                        + 1 <= st.spans[k].1;
                                assert(st2.spans[k].0 <= t && t + 1 <= st2.spans[k].1);
                            } else {
                                assert(st2.out[t + 1] == c);
                            }
                        }
                    }
                    assert(norm_at(s, i, m, st) == norm_at(s, i + 1, m2, st2));
                    lemma_norm_at_ws(s, i + 1, m2, st2);
                } else {
                    let st2 = NormState {
                        out: st.out.push(c),
                        spans: st.spans,
                        src: st.src,
                        warns: st.warns,
                    };
                    assert(ws_at(NormMode::Normal, st2)) by {
                        assert forall|t: int|
                            0 <= t < st2.out.len() - 1 && (#[trigger] st2.out[t]) == ' '
                                && st2.out[t + 1] == ' ' implies pair_covered(
                            NormMode::Normal,
                            st2,
                            t,
                        ) by {
                            assert(st2.out[t] == st.out[t]);
                            if t + 1 < st.out.len() {
                                assert(st2.out[t + 1] == st.out[t + 1]);
                                assert(pair_covered(m, st, t));
                                let k = choose|k: int|
                                    0 <= k < st.spans.len() && (#[trigger] st.spans[k]).0 <= t && t
                                        + 1 <= st.spans[k].1;
                                assert(st2.spans[k].0 <= t && t + 1 <= st2.spans[k].1);
                            } else {
                                assert(st2.out[t + 1] == c);
                                assert(!is_css_ws(c));
                            }
                        }
                    }
                    assert(norm_at(s, i, m, st) == norm_at(s, i + 1, NormMode::Normal, st2));
                    lemma_norm_at_ws(s, i + 1, NormMode::Normal, st2);
                }
            },
            NormMode::InComment { star } => {
                if star && c == '/' {
                    assert(ws_at(NormMode::Normal, st));
                    assert(norm_at(s, i, m, st) == norm_at(s, i + 1, NormMode::Normal, st));
                    lemma_norm_at_ws(s, i + 1, NormMode::Normal, st);
                } else {
                    assert(ws_at(NormMode::InComment { star: c == '*' }, st));
                    assert(norm_at(s, i, m, st) == norm_at(s, i + 1, NormMode::InComment { star: c == '*' }, st));
                    lemma_norm_at_ws(s, i + 1, NormMode::InComment { star: c == '*' }, st);
                }
            },
            NormMode::InQuote { q, start, src_start } => {
                if c == q {
                    let st2 = NormState {
                        out: st.out.push(c),
                        spans: st.spans.push((start, st.out.len() as int)),
                        src: st.src.push((src_start, i)),
                        warns: st.warns,
                    };
                    assert(ws_at(NormMode::Normal, st2)) by {
                        assert forall|k: int| 0 <= k < st2.spans.len() implies 0 <= (
                        #[trigger] st2.spans[k]).0 <= st2.spans[k].1 < st2.out.len() && is_quote(
                            st2.out[st2.spans[k].1],
                        ) by {
                            if k < st.spans.len() {
                                assert(st2.spans[k] == st.spans[k]);
                                assert(is_quote(st.out[st.spans[k].1]));
                            } else {
                                assert(st2.spans[k] == (start, st.out.len() as int));
                            }
                        }
                        assert forall|t: int|
                            0 <= t < st2.out.len() - 1 && (#[trigger] st2.out[t]) == ' '
                                && st2.out[t + 1] == ' ' implies pair_covered(
                            NormMode::Normal,
                            st2,
                            t,
                        ) by {
                            assert(st2.out[t] == st.out[t]);
                            assert(t + 1 < st.out.len() || st2.out[t + 1] == c);
                            assert(pair_covered(m, st, t));
                            if !(exists|k: int|
                                0 <= k < st.spans.len() && (#[trigger] st.spans[k]).0 <= t && t + 1
                                    <= st.spans[k].1) {
                                assert(start <= t);
                                let kk = st2.spans.len() - 1;
                                assert(st2.spans[kk].0 <= t && t + 1 <= st2.spans[kk].1);
                            } else {
                                let k = choose|k: int|
                                    0 <= k < st.spans.len() && (#[trigger] st.spans[k]).0 <= t && t
                                        + 1 <= st.spans[k].1;
                                assert(st2.spans[k] == st.spans[k]);
                            }
                        }
                    }
                    assert(norm_at(s, i, m, st) == norm_at(s, i + 1, NormMode::Normal, st2));
                    lemma_norm_at_ws(s, i + 1, NormMode::Normal, st2);
                } else {
                    let st2 = NormState {
                        out: st.out.push(c),
                        spans: st.spans,
                        src: st.src,
                        warns: st.warns,
                    };
                    assert(ws_at(m, st2)) by {
                        assert forall|t: int|
                            0 <= t < st2.out.len() - 1 && (#[trigger] st2.out[t]) == ' '
                                && st2.out[t + 1] == ' ' implies pair_covered(m, st2, t) by {
                            if t + 1 < st.out.len() {
                                assert(st2.out[t] == st.out[t]);
                                assert(st2.out[t + 1] == st.out[t + 1]);
                                assert(pair_covered(m, st, t));
                                if !(m matches NormMode::InQuote { start: st3, .. } && st3 <= t) {
                                    let k = choose|k: int|
                                        0 <= k < st.spans.len() && (#[trigger] st.spans[k]).0 <= t
                                            && t + 1 <= st.spans[k].1;
                                    assert(st2.spans[k].0 <= t && t + 1 <= st2.spans[k].1);
                                }
                            } else {
                                assert(start <= st.out.len() - 1);
                            }
                        }
                    }
                    assert(norm_at(s, i, m, st) == norm_at(s, i + 1, m, st2));
                    lemma_norm_at_ws(s, i + 1, m, st2);
                }
            },
        }
    }
}

/// WHITESPACE COLLAPSE (normalizer): the normalized buffer never begins
/// with a space, and two adjacent spaces occur in it only inside a
/// recorded quote span — outside quoted text, every whitespace run of
/// the input has become at most one space, never a leading one.
pub proof fn lemma_whitespace_collapse(x: Seq<char>)
    ensures
        ws_final(spec_normalize(x)),
{
    lemma_norm_at_ws(x, 0, NormMode::Normal, norm_init());
}

/// Tidy output: a space is never preceded by a space or `{`, and `}` or
/// `;` is never preceded by a space.
pub open spec fn tidy(out: Seq<char>) -> bool {
    &&& forall|t: int|
        0 < t < out.len() && (#[trigger] out[t]) == ' ' ==> out[t - 1] != ' ' && out[t - 1] != '{'
    &&& forall|t: int|
        0 < t < out.len() && ((#[trigger] out[t]) == '}' || out[t] == ';') ==> out[t - 1] != ' '
}

proof fn lemma_tidy_drop(x: Seq<char>, y: Seq<char>)
    requires
        tidy(x),
        y == x || (x.len() > 0 && y == x.drop_last()),
    ensures
        tidy(y),
{
    assert forall|t: int| 0 < t < y.len() implies (#[trigger] y[t]) == x[t] && y[t - 1] == x[t
        - 1] by {}
}

proof fn lemma_pop_space_last(x: Seq<char>)
    requires
        tidy(x),
    ensures
        pop_space(x).len() > 0 ==> pop_space(x).last() != ' ',
{
    if x.len() > 0 && x.last() == ' ' && x.len() > 1 {
        assert(x[x.len() - 2] != ' ');
    }
}

proof fn lemma_pop_semi_last(x: Seq<char>)
    requires
        tidy(x),
        x.len() > 0 ==> x.last() != ' ',
    ensures
        pop_semi(x).len() > 0 ==> pop_semi(x).last() != ' ',
{
    if x.len() > 0 && x.last() == ';' && x.len() > 1 {
        assert(x[x.len() - 2] != ' ');
    }
}

proof fn lemma_tidy_push(x: Seq<char>, c: char)
    requires
        tidy(x),
        x.len() > 0 ==> !(x.last() == ' ' && c == ' ') && !(x.last() == '{' && c == ' ') && !(
        x.last() == ' ' && c == '}') && !(x.last() == ' ' && c == ';'),
    ensures
        tidy(x.push(c)),
{
    let y = x.push(c);
    assert forall|t: int| 0 < t < y.len() implies ((#[trigger] y[t]) == ' ' ==> y[t - 1] != ' '
        && y[t - 1] != '{') && ((y[t] == '}' || y[t] == ';') ==> y[t - 1] != ' ') by {
        if t < x.len() {
            assert(y[t] == x[t] && y[t - 1] == x[t - 1]);
        } else {
            assert(y[t] == c && y[t - 1] == x.last());
        }
    }
}

proof fn lemma_tidy_remove(x: Seq<char>, b: int)
    requires
        tidy(x),
        0 <= b,
        b + 1 < x.len(),
        x[b] == ' ',
        x[b + 1] == ':',
    ensures
        tidy(x.remove(b)),
{
    let y = x.remove(b);
    assert forall|t: int| 0 < t < y.len() implies ((#[trigger] y[t]) == ' ' ==> y[t - 1] != ' '
        && y[t - 1] != '{') && ((y[t] == '}' || y[t] == ';') ==> y[t - 1] != ' ') by {
        if t < b {
            assert(y[t] == x[t] && y[t - 1] == x[t - 1]);
        } else if t == b {
            assert(y[t] == x[t + 1] && y[t - 1] == x[t - 1]);
            assert(x[t + 1] == ':');
        } else {
            assert(y[t] == x[t + 1] && y[t - 1] == x[t]);
        }
    }
}

proof fn lemma_tidy_append(x: Seq<char>, h: Seq<char>)
    requires
        tidy(x),
        forall|j: int|
            0 <= j < h.len() ==> (#[trigger] h[j]) != ' ' && h[j] != '{' && h[j] != '}' && h[j]
                != ';',
    ensures
        tidy(x + h),
{
    let y = x + h;
    assert forall|t: int| 0 < t < y.len() implies ((#[trigger] y[t]) == ' ' ==> y[t - 1] != ' '
        && y[t - 1] != '{') && ((y[t] == '}' || y[t] == ';') ==> y[t - 1] != ' ') by {
        if t < x.len() {
            assert(y[t] == x[t] && y[t - 1] == x[t - 1]);
        } else {
            assert(y[t] == h[t - x.len()]);
        }
    }
}

/// What the color canonicalizer emits: a `#` and hex digits, nothing
/// else.
spec fn color_chars(h: Seq<char>) -> bool {
    forall|j: int| 0 <= j < h.len() ==> (#[trigger] h[j]) == '#' || is_hex_digit(h[j])
}

proof fn lemma_hex_shorten_chars(cand: Seq<char>, h: Seq<char>)
    requires
        crate::color::hex_shorten(cand) == Some(h),
    ensures
        h.len() > 0,
        color_chars(h),
        forall|j: int|
            0 <= j < h.len() ==> (#[trigger] h[j]) != ' ' && h[j] != '{' && h[j] != '}' && h[j]
                != ';',
{
    assert(crate::color::hex_candidate(cand));
    assert forall|j: int| 0 <= j < h.len() implies (#[trigger] h[j]) == '#' || is_hex_digit(
        h[j],
    ) by {
        if h != cand {
        }
    }
}

/// What the whitespace argument needs of the walk's running state: tidy
/// output, a well-placed backreference, and two links between the last
/// output character and the scan position.
spec fn ws_walk(s: Seq<char>, i: int, out: Seq<char>, br: Option<int>) -> bool {
    &&& tidy(out)
    &&& br_ok(out, br)
    &&& (out.len() > 0 && out.last() == ' ' ==> 1 <= i && i - 1 < s.len() && s[i - 1] == ' ')
    &&& (out.len() > 0 && out.last() == '{' && i < s.len() ==> s[i] != ' ')
}

/// On a buffer with no recorded spans and no adjacent spaces, the walk
/// keeps its output tidy to the end.
proof fn lemma_min_at_tidy(s: Seq<char>, q: Map<int, int>, i: int, out: Seq<char>, br: Option<int>)
    requires
        0 <= i <= s.len(),
        forall|z: int| !q.dom().contains(z),
        forall|t: int| 0 < t < s.len() ==> !((#[trigger] s[t]) == ' ' && s[t - 1] == ' '),
        ws_walk(s, i, out, br),
    ensures
        tidy(min_at(s, q, i, out, br)),
    decreases s.len() - i,
{
    if i >= s.len() {
    } else {
        let c = s[i];
        if c == '{' {
            lemma_step_open(s, q, i, out, br);
            lemma_tidy_drop(out, pop_space(out));
            lemma_pop_space_last(out);
            lemma_tidy_push(pop_space(out), '{');
            let out2 = pop_space(out).push('{');
            let i2 = skip_space(s, i + 1);
            assert(ws_walk(s, i2, out2, None));
            lemma_min_at_tidy(s, q, i2, out2, None);
        } else if c == '}' || c == ';' {
            if c == '}' {
                lemma_step_close(s, q, i, out, br);
            } else {
                lemma_step_semi(s, q, i, out, br);
            }
            let outr = remove_br(out, br);
            assert(tidy(outr)) by {
                match br {
                    Some(b) => {
                        if 0 <= b < out.len() {
                            lemma_tidy_remove(out, b);
                        }
                    },
                    None => {},
                }
            }
            lemma_tidy_drop(outr, pop_space(outr));
            lemma_pop_space_last(outr);
            let outp = if c == '}' {
                pop_semi(pop_space(outr))
            } else {
                pop_space(outr)
            };
            assert(tidy(outp) && (outp.len() > 0 ==> outp.last() != ' ')) by {
                if c == '}' {
                    lemma_tidy_drop(pop_space(outr), outp);
                    lemma_pop_semi_last(pop_space(outr));
                }
            }
            lemma_tidy_push(outp, if c == '}' {
                '}'
            } else {
                ';'
            });
            let out2 = outp.push(if c == '}' {
                '}'
            } else {
                ';'
            });
            let i2 = skip_space(s, i + 1);
            assert(ws_walk(s, i2, out2, None));
            lemma_min_at_tidy(s, q, i2, out2, None);
        } else if c == ':' {
            if i + 1 < s.len() && s[i + 1] == ':' {
                lemma_step_pseudo(s, q, i, out, br);
                lemma_tidy_push(out, ':');
                lemma_tidy_push(out.push(':'), ':');
                let out2 = out.push(':').push(':');
                assert(ws_walk(s, i + 2, out2, None));
                lemma_min_at_tidy(s, q, i + 2, out2, None);
            } else {
                lemma_step_colon(s, q, i, out, br);
                let nbr: Option<int> = if out.len() > 0 && out.last() == ' ' {
                    Some(out.len() - 1)
                } else {
                    None
                };
                lemma_tidy_push(out, ':');
                let out2 = out.push(':');
                let i2 = skip_space(s, i + 1);
                assert(ws_walk(s, i2, out2, nbr));
                lemma_min_at_tidy(s, q, i2, out2, nbr);
            }
        } else if c == ',' {
            lemma_step_comma(s, q, i, out, br);
            lemma_tidy_drop(out, pop_space(out));
            lemma_pop_space_last(out);
            lemma_tidy_push(pop_space(out), ',');
            let out2 = pop_space(out).push(',');
            let i2 = skip_space(s, i + 1);
            assert(br_ok(out2, br)) by {
                match br {
                    Some(b) => {
                        if out.len() > 0 && out.last() == ' ' {
                            assert(out[b + 1] == ':');
                            assert(b + 1 != out.len() - 1);
                        }
                    },
                    None => {},
                }
            }
            assert(ws_walk(s, i2, out2, br));
            lemma_min_at_tidy(s, q, i2, out2, br);
        } else if c == '#' && i + 3 < s.len() {
            lemma_step_hex(s, q, i, out, br);
            lemma_hex_run_end(s, i + 1);
            let e = hex_run_end(s, i + 1);
            match crate::color::hex_shorten(s.subrange(i, e)) {
                Some(h) => {
                    lemma_hex_shorten_chars(s.subrange(i, e), h);
                    lemma_tidy_append(out, h);
                    let out2 = out + h;
                    assert(out2.last() == h.last());
                    assert(ws_walk(s, e, out2, br));
                    lemma_min_at_tidy(s, q, e, out2, br);
                },
                None => {
                    lemma_tidy_push(out, '#');
                    let out2 = out.push('#');
                    assert(ws_walk(s, i + 1, out2, br));
                    lemma_min_at_tidy(s, q, i + 1, out2, br);
                },
            }
        } else if c == 'r' && rgb_trigger(s, i) {
            lemma_step_rgb(s, q, i, out, br);
            let p0: int = if s[i + 4] == '(' {
                i + 5
            } else {
                i + 4
            };
            lemma_rgb_run_end(s, p0);
            let e = rgb_run_end(s, p0);
            if e < s.len() && s[e] == ')' {
                match crate::rgb::rgb_decode(s.subrange(i, e + 1)) {
                    Some(h) => {
                        crate::rgb::lemma_rgb_decode_candidate(s.subrange(i, e + 1));
                        let h2 = reshorten(h);
                        lemma_hex_shorten_chars(h, h2);
                        lemma_tidy_append(out, h2);
                        let out2 = out + h2;
                        assert(out2.last() == h2.last());
                        assert(ws_walk(s, e + 1, out2, br));
                        lemma_min_at_tidy(s, q, e + 1, out2, br);
                    },
                    None => {
                        lemma_tidy_push(out, 'r');
                        let out2 = out.push('r');
                        assert(ws_walk(s, i + 1, out2, br));
                        lemma_min_at_tidy(s, q, i + 1, out2, br);
                    },
                }
            } else {
                lemma_tidy_push(out, 'r');
                let out2 = out.push('r');
                assert(ws_walk(s, i + 1, out2, br));
                lemma_min_at_tidy(s, q, i + 1, out2, br);
            }
        } else {
            lemma_step_plain(s, q, i, out, br);
            assert(!(out.len() > 0 && out.last() == ' ' && c == ' '));
            assert(!(out.len() > 0 && out.last() == '{' && c == ' '));
            lemma_tidy_push(out, c);
            let out2 = out.push(c);
            assert(ws_walk(s, i + 1, out2, br));
            lemma_min_at_tidy(s, q, i + 1, out2, br);
        }
    }
}

/// WHITESPACE COLLAPSE (structural pass): on an input that holds no
/// quoted string, the minified text never carries two adjacent spaces,
/// never a space directly after `{`, and never a space directly before
/// `}` or `;` — block content neither begins nor ends with a space.
pub proof fn lemma_minified_tidy(x: Seq<char>)
    requires
        spec_normalize(x).spans.len() == 0,
    ensures
        tidy(spec_minify(x)),
{
    lemma_whitespace_collapse(x);
    let nr = spec_normalize(x);
    assert(forall|z: int| !span_map(nr.spans).dom().contains(z)) by {
        assert(span_map(nr.spans) == Map::<int, int>::empty());
    }
    assert forall|t: int| 0 < t < nr.out.len() implies !((#[trigger] nr.out[t]) == ' '
        && nr.out[t - 1] == ' ') by {
        if nr.out[t] == ' ' && nr.out[t - 1] == ' ' {
            assert(nr.out[t - 1] == ' ' && nr.out[t - 1 + 1] == ' ');
        }
    }
    lemma_min_at_tidy(nr.out, span_map(nr.spans), 0, Seq::empty(), None);
}

/// The scan warns only when the input ends inside a pending construct,
/// which has by then consumed everything that remained.
proof fn lemma_norm_at_warns(s: Seq<char>, i: int, m: NormMode, st: NormState)
    requires
        0 <= i <= s.len(),
    ensures
        norm_at(s, i, m, st).warns.len() <= st.warns.len() + 1,
    decreases s.len() - i,
{
    if i >= s.len() {
    } else {
        let c = s[i];
        match m {
            NormMode::Normal => {
                if is_css_ws(c) {
                    let out1 = if st.out.len() > 0 && st.out.last() == ' ' {
                        st.out.drop_last()
                    } else {
                        st.out
                    };
                    let out2 = if out1.len() > 0 && i + 1 < s.len() {
                        out1.push(' ')
                    } else {
                        out1
                    };
                    lemma_norm_at_warns(s, i + 1, NormMode::Normal, NormState {
                        out: out2,
                        spans: st.spans,
                        src: st.src,
                        warns: st.warns,
                    });
                } else if c == '/' && i + 1 < s.len() && s[i + 1] == '*' {
                    lemma_norm_at_warns(s, i + 2, NormMode::InComment { star: false }, st);
                } else if is_quote(c) {
                    lemma_norm_at_warns(s, i + 1, NormMode::InQuote {
                        q: c,
                        start: st.out.len() as int,
                        src_start: i,
                    }, NormState {
                        out: st.out.push(c),
                        spans: st.spans,
                        src: st.src,
                        warns: st.warns,
                    });
                } else {
                    lemma_norm_at_warns(s, i + 1, NormMode::Normal, NormState {
                        out: st.out.push(c),
                        spans: st.spans,
                        src: st.src,
                        warns: st.warns,
                    });
                }
            },
            NormMode::InComment { star } => {
                if star && c == '/' {
                    lemma_norm_at_warns(s, i + 1, NormMode::Normal, st);
                } else {
                    lemma_norm_at_warns(s, i + 1, NormMode::InComment { star: c == '*' }, st);
                }
            },
            NormMode::InQuote { q, start, src_start } => {
                if c == q {
                    lemma_norm_at_warns(s, i + 1, NormMode::Normal, NormState {
                        out: st.out.push(c),
                        spans: st.spans.push((start, st.out.len() as int)),
                        src: st.src.push((src_start, i)),
                        warns: st.warns,
                    });
                } else {
                    lemma_norm_at_warns(s, i + 1, NormMode::InQuote { q, start, src_start },
                        NormState {
                        out: st.out.push(c),
                        spans: st.spans,
                        src: st.src,
                        warns: st.warns,
                    });
                }
            },
        }
    }
}

/// GRACEFUL DEGRADATION: a transform collects at most one warning — an
/// unterminated comment or quote consumes the rest of the input, so no
/// second construct can be left open.
pub proof fn lemma_at_most_one_warning(x: Seq<char>)
    ensures
        spec_warns(x).len() <= 1,
{
    lemma_norm_at_warns(x, 0, NormMode::Normal, norm_init());
}

} // verus!
