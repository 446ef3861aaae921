//! The structural minifier: one left-to-right walk over the normalized
//! buffer. Quote spans are copied verbatim; spaces around `{`, `}`, `,`,
//! `;` and the value-assignment `:` are dropped; the final semicolon of a
//! declaration block is dropped; hex and `rgb()`/`rgba()` color literals
//! are canonicalized in place.
//!
//! A single `:` is ambiguous: in `div :hover` the space before it must
//! stay, in `color : red` it must go. The walk keeps the space and
//! records its position as a backreference; a later `;` or `}` proves the
//! construct was a declaration and deletes the recorded space, while `{`,
//! another colon, or the end of the buffer discards the record and the
//! space stays. At most one backreference is live at a time.

use vstd::prelude::*;
use crate::lex::{is_quote, quote, is_hex_digit, hex_digit, is_decodable, decodable, is_css_ws};
use crate::color::{hex_shorten, try_minify_hex_color};
use crate::rgb::{rgb_decode, try_decode_rgb_func, lemma_rgb_decode_candidate};
use crate::normalize::{spans_view, NormMode, NormState, norm_at};

verus! {

/// The span table as a map from start offset to end offset.
pub open spec fn span_map(spans: Seq<(int, int)>) -> Map<int, int>
    decreases spans.len(),
{
    if spans.len() == 0 {
        Map::empty()
    } else {
        span_map(spans.drop_last()).insert(spans.last().0, spans.last().1)
    }
}

/// Drop a trailing space.
pub open spec fn pop_space(out: Seq<char>) -> Seq<char> {
    if out.len() > 0 && out.last() == ' ' {
        out.drop_last()
    } else {
        out
    }
}

/// Drop a trailing semicolon.
pub open spec fn pop_semi(out: Seq<char>) -> Seq<char> {
    if out.len() > 0 && out.last() == ';' {
        out.drop_last()
    } else {
        out
    }
}

/// Delete the backreferenced byte, if a backreference is live.
pub open spec fn remove_br(out: Seq<char>, br: Option<int>) -> Seq<char> {
    match br {
        Some(b) => if 0 <= b < out.len() {
            out.remove(b)
        } else {
            out
        },
        None => out,
    }
}

/// Skip one following space.
pub open spec fn skip_space(s: Seq<char>, j: int) -> int {
    if j < s.len() && s[j] == ' ' {
        j + 1
    } else {
        j
    }
}

/// The end of the hex-digit run starting at `j`.
pub open spec fn hex_run_end(s: Seq<char>, j: int) -> int
    decreases s.len() - j,
{
    if j < s.len() && is_hex_digit(s[j]) {
        hex_run_end(s, j + 1)
    } else {
        j
    }
}

pub proof fn lemma_hex_run_end(s: Seq<char>, j: int)
    ensures
        j <= hex_run_end(s, j),
        j <= s.len() ==> hex_run_end(s, j) <= s.len(),
        forall|t: int| j <= t < hex_run_end(s, j) ==> is_hex_digit(s[t]),
        hex_run_end(s, j) < s.len() ==> !is_hex_digit(s[hex_run_end(s, j)]),
    decreases s.len() - j,
{
    if j < s.len() && is_hex_digit(s[j]) {
        lemma_hex_run_end(s, j + 1);
    }
}

/// The end of the decodable run starting at `j`: the first position that
/// holds `)`, a character outside the decodable set, or the end.
pub open spec fn rgb_run_end(s: Seq<char>, j: int) -> int
    decreases s.len() - j,
{
    if j < s.len() && s[j] != ')' && is_decodable(s[j]) {
        rgb_run_end(s, j + 1)
    } else {
        j
    }
}

pub proof fn lemma_rgb_run_end(s: Seq<char>, j: int)
    ensures
        j <= rgb_run_end(s, j),
        j <= s.len() ==> rgb_run_end(s, j) <= s.len(),
        forall|t: int| j <= t < rgb_run_end(s, j) ==> s[t] != ')' && is_decodable(s[t]),
        rgb_run_end(s, j) < s.len() ==> (s[rgb_run_end(s, j)] == ')' || !is_decodable(
            s[rgb_run_end(s, j)],
        )),
    decreases s.len() - j,
{
    if j < s.len() && s[j] != ')' && is_decodable(s[j]) {
        lemma_rgb_run_end(s, j + 1);
    }
}

/// Re-run a decoded color through hex shortening (which cannot fail on a
/// decoder result).
pub open spec fn reshorten(h: Seq<char>) -> Seq<char> {
    match hex_shorten(h) {
        Some(hh) => hh,
        None => h,
    }
}

/// Whether `i` begins an `rgb(` or `rgba(` run with enough lookahead.
pub open spec fn rgb_trigger(s: Seq<char>, i: int) -> bool {
    i + 9 < s.len() && (
        (s[i + 1] == 'g' && s[i + 2] == 'b' && s[i + 3] == '(')
        || (s[i + 1] == 'g' && s[i + 2] == 'b' && s[i + 3] == 'a' && s[i + 4] == '(')
    )
}

/// One minification step at position `i` of the normalized buffer `s`,
/// with quote-span table `q`, output built so far `out`, and the live
/// backreference `br`.
pub open spec fn min_at(s: Seq<char>, q: Map<int, int>, i: int, out: Seq<char>, br: Option<int>)
    -> Seq<char>
    decreases s.len() - i,
    via min_at_dec
{
    if i >= s.len() {
        out
    } else {
        let c = s[i];
        if is_quote(c) && q.dom().contains(i) && i <= q[i] < s.len() {
            // a recorded quote span: copy it verbatim
            min_at(s, q, q[i] + 1, out + s.subrange(i, q[i] + 1), br)
        } else if c == '{' {
            min_at(s, q, skip_space(s, i + 1), pop_space(out).push('{'), None)
        } else if c == '}' {
            min_at(s, q, skip_space(s, i + 1), pop_semi(pop_space(remove_br(out, br))).push('}'),
                None)
        } else if c == ':' {
            if i + 1 < s.len() && s[i + 1] == ':' {
                // pseudo-element
                min_at(s, q, i + 2, out.push(':').push(':'), None)
            } else {
                let nbr: Option<int> = if out.len() > 0 && out.last() == ' ' {
                    Some(out.len() - 1)
                } else {
                    None
                };
                min_at(s, q, skip_space(s, i + 1), out.push(':'), nbr)
            }
        } else if c == ',' {
            min_at(s, q, skip_space(s, i + 1), pop_space(out).push(','), br)
        } else if c == ';' {
            min_at(s, q, skip_space(s, i + 1), pop_space(remove_br(out, br)).push(';'), None)
        } else if c == '#' && i + 3 < s.len() {
            let e = hex_run_end(s, i + 1);
            match hex_shorten(s.subrange(i, e)) {
                Some(h) => min_at(s, q, e, out + h, br),
                None => min_at(s, q, i + 1, out.push('#'), br),
            }
        } else if c == 'r' && rgb_trigger(s, i) {
            let p0: int = if s[i + 4] == '(' {
                i + 5
            } else {
                i + 4
            };
            let e = rgb_run_end(s, p0);
            if e < s.len() && s[e] == ')' {
                match rgb_decode(s.subrange(i, e + 1)) {
                    Some(h) => min_at(s, q, e + 1, out + reshorten(h), br),
                    None => min_at(s, q, i + 1, out.push('r'), br),
                }
            } else {
                min_at(s, q, i + 1, out.push('r'), br)
            }
        } else {
            min_at(s, q, i + 1, out.push(c), br)
        }
    }
}

#[via_fn]
proof fn min_at_dec(s: Seq<char>, q: Map<int, int>, i: int, out: Seq<char>, br: Option<int>) {
    if i < s.len() {
        lemma_hex_run_end(s, i + 1);
        lemma_rgb_run_end(s, i + 4);
        lemma_rgb_run_end(s, i + 5);
    }
}

/// The whole structural pass.
pub open spec fn spec_minify_pass(s: Seq<char>, spans: Seq<(int, int)>) -> Seq<char> {
    min_at(s, span_map(spans), 0, Seq::empty(), None)
}

/// A well-formed span table over the normalized buffer `s`: spans lie in
/// bounds, are disjoint and ordered, and each starts at a quote character.
pub open spec fn span_table_wf(s: Seq<char>, sp: Seq<(int, int)>) -> bool {
    &&& forall|k: int| 0 <= k < sp.len() ==> 0 <= (#[trigger] sp[k]).0 <= sp[k].1 < s.len()
    &&& forall|k: int| 0 <= k < sp.len() - 1 ==> (#[trigger] sp[k]).1 < sp[k + 1].0
    &&& forall|k: int| 0 <= k < sp.len() ==> is_quote(s[(#[trigger] sp[k]).0])
}

/// Disjointness and order extend from neighbours to any pair.
pub proof fn lemma_spans_ordered(s: Seq<char>, sp: Seq<(int, int)>)
    requires
        span_table_wf(s, sp),
    ensures
        forall|k: int, l: int| 0 <= k < l < sp.len() ==> (#[trigger] sp[k]).1 < (#[trigger] sp[l]).0,
{
    assert forall|k: int, l: int| 0 <= k < l < sp.len() implies (#[trigger] sp[k]).1 < (
    #[trigger] sp[l]).0 by {
        lemma_spans_ordered_pair(s, sp, k, l);
    }
}

proof fn lemma_spans_ordered_pair(s: Seq<char>, sp: Seq<(int, int)>, k: int, l: int)
    requires
        span_table_wf(s, sp),
        0 <= k < l < sp.len(),
    ensures
        sp[k].1 < sp[l].0,
    decreases l - k,
{
    if k + 1 < l {
        lemma_spans_ordered_pair(s, sp, k, l - 1);
    }
}

/// Every span is in the table's map, keyed by its start.
pub proof fn lemma_span_map_contains(sp: Seq<(int, int)>, j: int)
    requires
        0 <= j < sp.len(),
        forall|k: int, l: int| 0 <= k < l < sp.len() ==> (#[trigger] sp[k]).0 < (#[trigger] sp[l]).0,
    ensures
        span_map(sp).dom().contains(sp[j].0),
        span_map(sp)[sp[j].0] == sp[j].1,
    decreases sp.len(),
{
    if j == sp.len() - 1 {
    } else {
        assert(forall|k: int, l: int|
            0 <= k < l < sp.drop_last().len() ==> (#[trigger] sp.drop_last()[k]).0 < (
            #[trigger] sp.drop_last()[l]).0);
        lemma_span_map_contains(sp.drop_last(), j);
        assert(sp.last().0 != sp[j].0);
    }
}

/// An offset that starts no span is not in the table's map.
pub proof fn lemma_span_map_absent(sp: Seq<(int, int)>, x: int)
    requires
        forall|j: int| 0 <= j < sp.len() ==> (#[trigger] sp[j]).0 != x,
    ensures
        !span_map(sp).dom().contains(x),
    decreases sp.len(),
{
    if sp.len() > 0 {
        assert(forall|j: int|
            0 <= j < sp.drop_last().len() ==> (#[trigger] sp.drop_last()[j]).0 != x);
        lemma_span_map_absent(sp.drop_last(), x);
    }
}

/// When the walk advances only over non-quote characters, no span start
/// is passed over.
proof fn lemma_starts_after(
    s: Seq<char>,
    sp: Seq<(int, int)>,
    ptr: int,
    read: int,
    new_read: int,
)
    requires
        span_table_wf(s, sp),
        0 <= ptr <= sp.len(),
        forall|j: int| ptr <= j < sp.len() ==> (#[trigger] sp[j]).0 >= read,
        read <= new_read <= s.len(),
        forall|t: int| read <= t < new_read ==> !is_quote(s[t]),
    ensures
        forall|j: int| ptr <= j < sp.len() ==> (#[trigger] sp[j]).0 >= new_read,
{
    assert forall|j: int| ptr <= j < sp.len() implies (#[trigger] sp[j]).0 >= new_read by {
        if sp[j].0 < new_read {
            assert(is_quote(s[sp[j].0]));
            assert(!is_quote(s[sp[j].0]));
        }
    }
}

/// A run of hex digits that ends at a non-digit (or the end) is exactly
/// what `hex_run_end` finds.
proof fn lemma_hex_run_is(s: Seq<char>, j: int, p: int)
    requires
        0 <= j <= p <= s.len(),
        forall|t: int| j <= t < p ==> is_hex_digit(s[t]),
        p < s.len() ==> !is_hex_digit(s[p]),
    ensures
        hex_run_end(s, j) == p,
    decreases p - j,
{
    if j < p {
        lemma_hex_run_is(s, j + 1, p);
    }
}

/// The same characterization for the decodable run.
proof fn lemma_rgb_run_is(s: Seq<char>, j: int, p: int)
    requires
        0 <= j <= p <= s.len(),
        forall|t: int| j <= t < p ==> s[t] != ')' && is_decodable(s[t]),
        p < s.len() ==> (s[p] == ')' || !is_decodable(s[p])),
    ensures
        rgb_run_end(s, j) == p,
    decreases p - j,
{
    if j < p {
        lemma_rgb_run_is(s, j + 1, p);
    }
}

/// The backreference as the model sees it.
pub open spec fn br_view(b: Option<usize>) -> Option<int> {
    match b {
        Some(x) => Some(x as int),
        None => None,
    }
}


/// One unfolding of `min_at` at a recorded quote span.
pub proof fn lemma_step_quote(s: Seq<char>, q: Map<int, int>, i: int, out: Seq<char>, br: Option<int>)
    requires
        0 <= i < s.len(),
        is_quote(s[i]),
        q.dom().contains(i),
        i <= q[i] < s.len(),
    ensures
        min_at(s, q, i, out, br) == min_at(s, q, q[i] + 1, out + s.subrange(i, q[i] + 1), br),
{
}

/// One unfolding of `min_at` at `{`.
pub proof fn lemma_step_open(s: Seq<char>, q: Map<int, int>, i: int, out: Seq<char>, br: Option<int>)
    requires
        0 <= i < s.len(),
        s[i] == '{',
    ensures
        min_at(s, q, i, out, br) == min_at(
            s,
            q,
            skip_space(s, i + 1),
            pop_space(out).push('{'),
            None,
        ),
{
}

/// One unfolding of `min_at` at `}`.
pub proof fn lemma_step_close(s: Seq<char>, q: Map<int, int>, i: int, out: Seq<char>, br: Option<int>)
    requires
        0 <= i < s.len(),
        s[i] == '}',
    ensures
        min_at(s, q, i, out, br) == min_at(
            s,
            q,
            skip_space(s, i + 1),
            pop_semi(pop_space(remove_br(out, br))).push('}'),
            None,
        ),
{
}

/// One unfolding of `min_at` at `::`.
pub proof fn lemma_step_pseudo(s: Seq<char>, q: Map<int, int>, i: int, out: Seq<char>, br: Option<int>)
    requires
        0 <= i < s.len(),
        s[i] == ':',
        i + 1 < s.len() && s[i + 1] == ':',
    ensures
        min_at(s, q, i, out, br) == min_at(s, q, i + 2, out.push(':').push(':'), None),
{
}

/// One unfolding of `min_at` at a single `:`.
pub proof fn lemma_step_colon(s: Seq<char>, q: Map<int, int>, i: int, out: Seq<char>, br: Option<int>)
    requires
        0 <= i < s.len(),
        s[i] == ':',
        !(i + 1 < s.len() && s[i + 1] == ':'),
    ensures
        min_at(s, q, i, out, br) == min_at(
            s,
            q,
            skip_space(s, i + 1),
            out.push(':'),
            if out.len() > 0 && out.last() == ' ' {
                Some(out.len() - 1)
            } else {
                None
            },
        ),
{
}

/// One unfolding of `min_at` at `,`.
pub proof fn lemma_step_comma(s: Seq<char>, q: Map<int, int>, i: int, out: Seq<char>, br: Option<int>)
    requires
        0 <= i < s.len(),
        s[i] == ',',
    ensures
        min_at(s, q, i, out, br) == min_at(
            s,
            q,
            skip_space(s, i + 1),
            pop_space(out).push(','),
            br,
        ),
{
}

/// One unfolding of `min_at` at `;`.
pub proof fn lemma_step_semi(s: Seq<char>, q: Map<int, int>, i: int, out: Seq<char>, br: Option<int>)
    requires
        0 <= i < s.len(),
        s[i] == ';',
    ensures
        min_at(s, q, i, out, br) == min_at(
            s,
            q,
            skip_space(s, i + 1),
            pop_space(remove_br(out, br)).push(';'),
            None,
        ),
{
}

/// One unfolding of `min_at` at a `#` with enough lookahead.
pub proof fn lemma_step_hex(s: Seq<char>, q: Map<int, int>, i: int, out: Seq<char>, br: Option<int>)
    requires
        0 <= i < s.len(),
        s[i] == '#',
        i + 3 < s.len(),
    ensures
        min_at(s, q, i, out, br) == (match hex_shorten(s.subrange(i, hex_run_end(s, i + 1))) {
            Some(h) => min_at(s, q, hex_run_end(s, i + 1), out + h, br),
            None => min_at(s, q, i + 1, out.push('#'), br),
        }),
{
}

/// One unfolding of `min_at` at an `rgb(`/`rgba(` trigger.
pub proof fn lemma_step_rgb(s: Seq<char>, q: Map<int, int>, i: int, out: Seq<char>, br: Option<int>)
    requires
        0 <= i < s.len(),
        s[i] == 'r',
        rgb_trigger(s, i),
    ensures
        min_at(s, q, i, out, br) == ({
            let p0: int = if s[i + 4] == '(' {
                i + 5
            } else {
                i + 4
            };
            let e = rgb_run_end(s, p0);
            if e < s.len() && s[e] == ')' {
                match rgb_decode(s.subrange(i, e + 1)) {
                    Some(h) => min_at(s, q, e + 1, out + reshorten(h), br),
                    None => min_at(s, q, i + 1, out.push('r'), br),
                }
            } else {
                min_at(s, q, i + 1, out.push('r'), br)
            }
        }),
{
}

/// One unfolding of `min_at` at any other character (including a quote
/// character that begins no recorded span).
pub proof fn lemma_step_plain(s: Seq<char>, q: Map<int, int>, i: int, out: Seq<char>, br: Option<int>)
    requires
        0 <= i < s.len(),
        is_quote(s[i]) ==> !(q.dom().contains(i) && i <= q[i] < s.len()),
        s[i] != '{' && s[i] != '}' && s[i] != ':' && s[i] != ',' && s[i] != ';',
        s[i] == '#' ==> !(i + 3 < s.len()),
        s[i] == 'r' ==> !rgb_trigger(s, i),
    ensures
        min_at(s, q, i, out, br) == min_at(s, q, i + 1, out.push(s[i]), br),
{
}

/// Drop a trailing `c`, if present.
fn pop_trailing(out: &mut Vec<char>, c: char)
    ensures
        final(out)@ == (if old(out)@.len() > 0 && old(out)@.last() == c {
            old(out)@.drop_last()
        } else {
            old(out)@
        }),
{
    if out.len() > 0 && out[out.len() - 1] == c {
        out.pop();
    }
}

/// Delete the backreferenced byte, if a backreference is live.
fn remove_backref(out: &mut Vec<char>, br: Option<usize>)
    requires
        (br matches Some(b) ==> b < old(out)@.len()),
    ensures
        final(out)@ == remove_br(old(out)@, br_view(br)),
{
    match br {
        Some(b) => {
            out.remove(b);
        },
        None => {},
    }
}

/// Advance past one following space, if present.
fn skip_one_space(input: &Vec<char>, read: usize) -> (r: usize)
    requires
        read <= input@.len(),
    ensures
        r as int == skip_space(input@, read as int),
        read <= r <= input@.len(),
{
    if read < input.len() && input[read] == ' ' {
        read + 1
    } else {
        read
    }
}

/// Copy `input[from..to]` into a fresh buffer.
fn copy_range(input: &Vec<char>, from: usize, to: usize) -> (r: Vec<char>)
    requires
        from <= to <= input@.len(),
    ensures
        r@ == input@.subrange(from as int, to as int),
{
    let mut r: Vec<char> = Vec::new();
    let mut t = from;
    while t < to
        invariant
            from <= t <= to <= input@.len(),
            r@ == input@.subrange(from as int, t as int),
        decreases to - t,
    {
        r.push(input[t]);
        proof {
            assert(r@ =~= input@.subrange(from as int, t + 1));
        }
        t += 1;
    }
    r
}

/// The structural pass: walk the normalized buffer once and emit the
/// minified text.
#[verifier::rlimit(60)]
pub fn minify_structural(input: &Vec<char>, spans: &Vec<(usize, usize)>) -> (r: Vec<char>)
    requires
        span_table_wf(input@, spans_view(spans@)),
    ensures
        r@ == spec_minify_pass(input@, spans_view(spans@)),
{
    let ghost s = input@;
    let ghost sp = spans_view(spans@);
    let ghost q = span_map(sp);
    let n = input.len();
    let mut out: Vec<char> = Vec::new();
    let mut read: usize = 0;
    let mut ptr: usize = 0;
    let mut br: Option<usize> = None;
    while read < n
        invariant
            read <= n,
            n == input@.len(),
            s == input@,
            sp == spans_view(spans@),
            q == span_map(sp),
            span_table_wf(s, sp),
            ptr <= spans@.len(),
            sp.len() == spans@.len(),
            forall|j: int| 0 <= j < ptr ==> (#[trigger] sp[j]).0 < read,
            forall|j: int| ptr <= j < sp.len() ==> (#[trigger] sp[j]).0 >= read,
            (br matches Some(b) ==> b + 1 < out@.len() && out@[b as int] == ' ' && out@[b as int
                + 1] == ':'),
            min_at(s, q, read as int, out@, br_view(br)) == spec_minify_pass(s, sp),
        decreases n - read,
    {
        let ghost read0 = read as int;
        let ghost out0 = out@;
        let ghost br0 = br_view(br);
        let c = input[read];
        if quote(c) {
            if ptr < spans.len() && spans[ptr].0 == read {
                let e = spans[ptr].1;
                proof {
                    assert(sp[ptr as int] == (spans@[ptr as int].0 as int, spans@[ptr as int].1
                        as int));
                    lemma_spans_ordered(s, sp);
                    assert forall|k: int, l: int| 0 <= k < l < sp.len() implies (
                    #[trigger] sp[k]).0 < (#[trigger] sp[l]).0 by {
                        assert(sp[k].0 <= sp[k].1 < sp[l].0);
                    }
                    lemma_span_map_contains(sp, ptr as int);
                    lemma_step_quote(s, q, read0, out0, br0);
                }
                let mut piece = copy_range(input, read, e + 1);
                out.append(&mut piece);
                ptr += 1;
                read = e + 1;
                proof {
                    assert forall|j: int| ptr <= j < sp.len() implies (#[trigger] sp[j]).0
                        >= read as int by {
                        assert(sp[ptr - 1].1 < sp[j].0);
                    }
                }
            } else {
                proof {
                    lemma_spans_ordered(s, sp);
                    assert forall|j: int| 0 <= j < sp.len() implies (#[trigger] sp[j]).0
                        != read0 by {
                        if j < ptr {
                        } else if j == ptr {
                            assert(sp[j] == (spans@[j].0 as int, spans@[j].1 as int));
                        } else {
                            assert(sp[ptr as int].1 < sp[j].0);
                            assert(sp[ptr as int].0 >= read0);
                        }
                    }
                    lemma_span_map_absent(sp, read0);
                    lemma_step_plain(s, q, read0, out0, br0);
                }
                out.push(c);
                read += 1;
                proof {
                    assert forall|j: int| ptr <= j < sp.len() implies (#[trigger] sp[j]).0
                        >= read as int by {
                        assert(sp[j].0 != read0);
                    }
                }
            }
        } else if c == '{' {
            proof {
                lemma_step_open(s, q, read0, out0, br0);
            }
            br = None;
            pop_trailing(&mut out, ' ');
            out.push('{');
            read = skip_one_space(input, read + 1);
            proof {
                assert(out@ == pop_space(out0).push('{'));
                lemma_starts_after(s, sp, ptr as int, read0, read as int);
            }
        } else if c == '}' {
            proof {
                lemma_step_close(s, q, read0, out0, br0);
            }
            remove_backref(&mut out, br);
            br = None;
            pop_trailing(&mut out, ' ');
            pop_trailing(&mut out, ';');
            out.push('}');
            read = skip_one_space(input, read + 1);
            proof {
                assert(out@ == pop_semi(pop_space(remove_br(out0, br0))).push('}'));
                lemma_starts_after(s, sp, ptr as int, read0, read as int);
            }
        } else if c == ':' {
            if read + 1 < n && input[read + 1] == ':' {
                proof {
                    lemma_step_pseudo(s, q, read0, out0, br0);
                }
                out.push(':');
                out.push(':');
                read += 2;
                br = None;
                proof {
                    lemma_starts_after(s, sp, ptr as int, read0, read as int);
                }
            } else {
                proof {
                    lemma_step_colon(s, q, read0, out0, br0);
                }
                if out.len() > 0 && out[out.len() - 1] == ' ' {
                    br = Some(out.len() - 1);
                } else {
                    br = None;
                }
                out.push(':');
                read = skip_one_space(input, read + 1);
                proof {
                    lemma_starts_after(s, sp, ptr as int, read0, read as int);
                }
            }
        } else if c == ',' {
            proof {
                lemma_step_comma(s, q, read0, out0, br0);
            }
            pop_trailing(&mut out, ' ');
            out.push(',');
            read = skip_one_space(input, read + 1);
            proof {
                assert(out@ == pop_space(out0).push(','));
                lemma_starts_after(s, sp, ptr as int, read0, read as int);
            }
        } else if c == ';' {
            proof {
                lemma_step_semi(s, q, read0, out0, br0);
            }
            remove_backref(&mut out, br);
            br = None;
            pop_trailing(&mut out, ' ');
            out.push(';');
            read = skip_one_space(input, read + 1);
            proof {
                assert(out@ == pop_space(remove_br(out0, br0)).push(';'));
                lemma_starts_after(s, sp, ptr as int, read0, read as int);
            }
        } else if c == '#' && n - read > 3 {
            proof {
                lemma_step_hex(s, q, read0, out0, br0);
            }
            let mut peek = read + 1;
            while peek < n && hex_digit(input[peek])
                invariant
                    read0 + 1 <= peek <= n,
                    n == input@.len(),
                    s == input@,
                    forall|t: int| read0 + 1 <= t < peek ==> is_hex_digit(s[t]),
                decreases n - peek,
            {
                peek += 1;
            }
            proof {
                lemma_hex_run_is(s, read0 + 1, peek as int);
            }
            let cand = copy_range(input, read, peek);
            match try_minify_hex_color(&cand) {
                Ok(h) => {
                    let mut h2 = h;
                    out.append(&mut h2);
                    read = peek;
                    proof {
                        lemma_starts_after(s, sp, ptr as int, read0, read as int);
                    }
                },
                Err(_) => {
                    out.push('#');
                    read += 1;
                    proof {
                        lemma_starts_after(s, sp, ptr as int, read0, read as int);
                    }
                },
            }
        } else if c == 'r' && n - read > 9 && input[read + 1] == 'g' && input[read + 2] == 'b'
            && (input[read + 3] == '(' || (input[read + 3] == 'a' && input[read + 4] == '(')) {
            proof {
                lemma_step_rgb(s, q, read0, out0, br0);
            }
            let mut peek = read + 4;
            if input[peek] == '(' {
                peek += 1;
            }
            let ghost p0 = peek as int;
            while peek < n && input[peek] != ')' && decodable(input[peek])
                invariant
                    p0 <= peek <= n,
                    n == input@.len(),
                    s == input@,
                    forall|t: int| p0 <= t < peek ==> s[t] != ')' && is_decodable(s[t]),
                decreases n - peek,
            {
                peek += 1;
            }
            proof {
                lemma_rgb_run_is(s, p0, peek as int);
            }
            if peek < n && input[peek] == ')' {
                let cand = copy_range(input, read, peek + 1);
                match try_decode_rgb_func(&cand) {
                    Ok(h) => {
                        proof {
                            lemma_rgb_decode_candidate(cand@);
                        }
                        let mut h2 = match try_minify_hex_color(&h) {
                            Ok(x) => x,
                            Err(_) => h,
                        };
                        out.append(&mut h2);
                        read = peek + 1;
                        proof {
                            assert forall|t2: int| read0 <= t2 < read as int implies !is_quote(
                                s[t2],
                            ) by {
                                if t2 >= p0 && t2 < peek as int {
                                    assert(is_decodable(s[t2]));
                                }
                            }
                            lemma_starts_after(s, sp, ptr as int, read0, read as int);
                        }
                    },
                    Err(_) => {
                        out.push('r');
                        read += 1;
                        proof {
                            lemma_starts_after(s, sp, ptr as int, read0, read as int);
                        }
                    },
                }
            } else {
                out.push('r');
                read += 1;
                proof {
                    lemma_starts_after(s, sp, ptr as int, read0, read as int);
                }
            }
        } else {
            proof {
                lemma_step_plain(s, q, read0, out0, br0);
            }
            out.push(c);
            read += 1;
            proof {
                lemma_starts_after(s, sp, ptr as int, read0, read as int);
            }
        }
    }
    out
}

/// The normalizer's running state keeps its recorded spans well formed:
/// in bounds, ordered, quote-delimited at both ends, paired with source
/// offsets, and copied verbatim from the source; an open quoted string
/// extends from `start` to the end of the output and mirrors the source
/// from `src_start` to the scan position.
pub open spec fn norm_wf_at(s: Seq<char>, i: int, m: NormMode, st: NormState) -> bool {
    &&& st.spans.len() == st.src.len()
    &&& forall|k: int|
        0 <= k < st.spans.len() ==> 0 <= (#[trigger] st.spans[k]).0 <= st.spans[k].1
            < st.out.len()
    &&& forall|k: int|
        0 <= k < st.spans.len() - 1 ==> (#[trigger] st.spans[k]).1 < st.spans[k + 1].0
    &&& forall|k: int|
        0 <= k < st.spans.len() ==> is_quote(st.out[(#[trigger] st.spans[k]).0]) && is_quote(
            st.out[st.spans[k].1],
        )
    &&& forall|k: int| 0 <= k < st.src.len() ==> 0 <= (#[trigger] st.src[k]).0 <= st.src[k].1
        < s.len()
    &&& forall|k: int|
        0 <= k < st.spans.len() ==> st.out.subrange((#[trigger] st.spans[k]).0, st.spans[k].1 + 1)
            == s.subrange(st.src[k].0, st.src[k].1 + 1)
    &&& (m matches NormMode::InQuote { q, start, src_start } ==> {
        &&& is_quote(q)
        &&& 0 <= start < st.out.len()
        &&& st.out[start] == q
        &&& (forall|k: int| 0 <= k < st.spans.len() ==> (#[trigger] st.spans[k]).1 < start)
        &&& 0 <= src_start < i <= s.len()
        &&& st.out.len() - start == i - src_start
        &&& st.out.subrange(start, st.out.len() as int) == s.subrange(src_start, i)
    })
}

/// What survives to the end of the scan: a well-formed span table whose
/// spans were copied verbatim from the recorded source offsets.
pub open spec fn norm_result_wf(s: Seq<char>, r: NormState) -> bool {
    &&& r.spans.len() == r.src.len()
    &&& span_table_wf(r.out, r.spans)
    &&& forall|k: int| 0 <= k < r.src.len() ==> 0 <= (#[trigger] r.src[k]).0 <= r.src[k].1
        < s.len()
    &&& forall|k: int|
        0 <= k < r.spans.len() ==> r.out.subrange((#[trigger] r.spans[k]).0, r.spans[k].1 + 1)
            == s.subrange(r.src[k].0, r.src[k].1 + 1)
    &&& forall|k: int|
        0 <= k < r.spans.len() ==> is_quote(r.out[(#[trigger] r.spans[k]).1]) || r.spans[k].1
            == r.out.len() - 1
}

/// The scan preserves span well-formedness to its final state.
pub proof fn lemma_norm_at_wf(s: Seq<char>, i: int, m: NormMode, st: NormState)
    requires
        0 <= i <= s.len(),
        norm_wf_at(s, i, m, st),
    ensures
        norm_result_wf(s, norm_at(s, i, m, st)),
    decreases s.len() - i,
{
    if i >= s.len() {
        match m {
            NormMode::Normal => {},
            NormMode::InComment { star } => {},
            NormMode::InQuote { q, start, src_start } => {
                let r = norm_at(s, i, m, st);
                assert(r.out.subrange(start, (st.out.len() - 1) + 1) == s.subrange(
                    src_start,
                    (s.len() - 1) + 1,
                ));
            },
        }
    } else {
        let c = s[i];
        match m {
            NormMode::Normal => {
                if is_css_ws(c) {
                    let out1 = if st.out.len() > 0 && st.out.last() == ' ' {
                        st.out.drop_last()
                    } else {
                        st.out
                    };
                    let out2 = if out1.len() > 0 && i + 1 < s.len() {
                        out1.push(' ')
                    } else {
                        out1
                    };
                    let st2 = NormState { out: out2, spans: st.spans, src: st.src, warns: st.warns };
                    assert forall|k: int| 0 <= k < st.spans.len() implies 0 <= (
                    #[trigger] st.spans[k]).0 <= st.spans[k].1 < out2.len() && is_quote(
                        out2[st.spans[k].0],
                    ) && is_quote(out2[st.spans[k].1]) && out2.subrange(
                        st.spans[k].0,
                        st.spans[k].1 + 1,
                    ) == s.subrange(st.src[k].0, st.src[k].1 + 1) by {
                        assert(is_quote(st.out[st.spans[k].1]));
                        assert(st.out.subrange(st.spans[k].0, st.spans[k].1 + 1) == s.subrange(
                            st.src[k].0,
                            st.src[k].1 + 1,
                        ));
                        assert(out2.subrange(st.spans[k].0, st.spans[k].1 + 1) =~= st.out.subrange(
                            st.spans[k].0,
                            st.spans[k].1 + 1,
                        ));
                    }
                    lemma_norm_at_wf(s, i + 1, NormMode::Normal, st2);
                } else if c == '/' && i + 1 < s.len() && s[i + 1] == '*' {
                    lemma_norm_at_wf(s, i + 2, NormMode::InComment { star: false }, st);
                } else if is_quote(c) {
                    let st2 = NormState {
                        out: st.out.push(c),
                        spans: st.spans,
                        src: st.src,
                        warns: st.warns,
                    };
                    assert forall|k: int| 0 <= k < st.spans.len() implies st2.out.subrange(
                        (#[trigger] st.spans[k]).0,
                        st.spans[k].1 + 1,
                    ) == s.subrange(st.src[k].0, st.src[k].1 + 1) by {
                        assert(st2.out.subrange(st.spans[k].0, st.spans[k].1 + 1)
                            =~= st.out.subrange(st.spans[k].0, st.spans[k].1 + 1));
                    }
                    assert(st2.out.subrange(st.out.len() as int, st2.out.len() as int)
                        =~= s.subrange(i, i + 1));
                    lemma_norm_at_wf(s, i + 1, NormMode::InQuote {
                        q: c,
                        start: st.out.len() as int,
                        src_start: i,
                    }, st2);
                } else {
                    let st2 = NormState {
                        out: st.out.push(c),
                        spans: st.spans,
                        src: st.src,
                        warns: st.warns,
                    };
                    assert forall|k: int| 0 <= k < st.spans.len() implies st2.out.subrange(
                        (#[trigger] st.spans[k]).0,
                        st.spans[k].1 + 1,
                    ) == s.subrange(st.src[k].0, st.src[k].1 + 1) by {
                        assert(st2.out.subrange(st.spans[k].0, st.spans[k].1 + 1)
                            =~= st.out.subrange(st.spans[k].0, st.spans[k].1 + 1));
                    }
                    lemma_norm_at_wf(s, i + 1, NormMode::Normal, st2);
                }
            },
            NormMode::InComment { star } => {
                if star && c == '/' {
                    lemma_norm_at_wf(s, i + 1, NormMode::Normal, st);
                } else {
                    lemma_norm_at_wf(s, i + 1, NormMode::InComment { star: c == '*' }, st);
                }
            },
            NormMode::InQuote { q, start, src_start } => {
                if c == q {
                    let st2 = NormState {
                        out: st.out.push(c),
                        spans: st.spans.push((start, st.out.len() as int)),
                        src: st.src.push((src_start, i)),
                        warns: st.warns,
                    };
                    assert forall|k: int| 0 <= k < st.spans.len() implies st2.out.subrange(
                        (#[trigger] st.spans[k]).0,
                        st.spans[k].1 + 1,
                    ) == s.subrange(st.src[k].0, st.src[k].1 + 1) by {
                        assert(st2.out.subrange(st.spans[k].0, st.spans[k].1 + 1)
                            =~= st.out.subrange(st.spans[k].0, st.spans[k].1 + 1));
                    }
                    assert(st2.out.subrange(start, st.out.len() as int + 1) =~= st.out.subrange(
                        start,
                        st.out.len() as int,
                    ).push(c));
                    assert(s.subrange(src_start, i + 1) =~= s.subrange(src_start, i).push(c));
                    lemma_norm_at_wf(s, i + 1, NormMode::Normal, st2);
                } else {
                    let st2 = NormState {
                        out: st.out.push(c),
                        spans: st.spans,
                        src: st.src,
                        warns: st.warns,
                    };
                    assert forall|k: int| 0 <= k < st.spans.len() implies st2.out.subrange(
                        (#[trigger] st.spans[k]).0,
                        st.spans[k].1 + 1,
                    ) == s.subrange(st.src[k].0, st.src[k].1 + 1) by {
                        assert(st2.out.subrange(st.spans[k].0, st.spans[k].1 + 1)
                            =~= st.out.subrange(st.spans[k].0, st.spans[k].1 + 1));
                    }
                    assert(st2.out.subrange(start, st2.out.len() as int) =~= st.out.subrange(
                        start,
                        st.out.len() as int,
                    ).push(c));
                    assert(s.subrange(src_start, i + 1) =~= s.subrange(src_start, i).push(c));
                    lemma_norm_at_wf(s, i + 1, NormMode::InQuote { q, start, src_start }, st2);
                }
            },
        }
    }
}

} // verus!
