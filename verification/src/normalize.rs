//! The normalizer: one left-to-right scan that collapses each whitespace
//! run to a single interior space, removes comments entirely, and copies
//! quoted strings verbatim while recording their spans. Unterminated
//! comments and quotes produce a warning, never a failure.
//!
//! The scan is modeled one character at a time by `norm_at`: a mode says
//! whether the scanner stands in plain text, inside a comment, or inside
//! a quoted string, and the state carries the output built so far, the
//! recorded spans (with, as ghost bookkeeping, the source offsets each
//! span came from), and the warnings.

use vstd::prelude::*;
use crate::lex::{is_css_ws, css_ws, is_quote, quote};

verus! {

/// A structural warning: the input ended inside a comment or a quote.
#[derive(Clone, Copy, PartialEq, Eq, Structural, Debug)]
pub enum Warn {
    Comment,
    Quote,
}

/// The normalizer's accumulated result.
pub ghost struct NormState {
    /// The normalized buffer.
    pub out: Seq<char>,
    /// Quote spans, as inclusive (start, end) offsets into `out`.
    pub spans: Seq<(int, int)>,
    /// For each span, the inclusive source offsets it was copied from.
    pub src: Seq<(int, int)>,
    /// Warnings, in the order they arose.
    pub warns: Seq<Warn>,
}

/// Where the scanner stands.
pub ghost enum NormMode {
    Normal,
    /// Inside a comment; `star` says whether the previous body character
    /// was `*` (so a `/` now closes the comment). It starts false: the
    /// body begins after the opening `/*`, and `/*/` does not close.
    InComment { star: bool },
    /// Inside a quoted string opened by `q`; `start` is the span's start
    /// in the output, `src_start` its start in the source.
    InQuote { q: char, start: int, src_start: int },
}

pub open spec fn norm_init() -> NormState {
    NormState { out: Seq::empty(), spans: Seq::empty(), src: Seq::empty(), warns: Seq::empty() }
}

/// One scan step at position `i`, in mode `m`, with state `st`.
pub open spec fn norm_at(s: Seq<char>, i: int, m: NormMode, st: NormState) -> NormState
    decreases s.len() - i,
{
    if i >= s.len() {
        match m {
            NormMode::Normal => st,
            NormMode::InComment { star } => NormState {
                out: st.out,
                spans: st.spans,
                src: st.src,
                warns: st.warns.push(Warn::Comment),
            },
            NormMode::InQuote { q, start, src_start } => NormState {
                out: st.out,
                spans: st.spans.push((start, st.out.len() - 1)),
                src: st.src.push((src_start, s.len() - 1)),
                warns: st.warns.push(Warn::Quote),
            },
        }
    } else {
        let c = s[i];
        match m {
            NormMode::Normal => {
                if is_css_ws(c) {
                    // drop a pending trailing space, then emit one space
                    // unless it would lead or trail
                    let out1 = if st.out.len() > 0 && st.out.last() == ' ' {
                        st.out.drop_last()
                    } else {
                        st.out
                    };
                    let out2 = if out1.len() > 0 && i + 1 < s.len() {
                        out1.push(' ')
                    } else {
                        out1
                    };
                    norm_at(s, i + 1, NormMode::Normal, NormState {
                        out: out2,
                        spans: st.spans,
                        src: st.src,
                        warns: st.warns,
                    })
                } else if c == '/' && i + 1 < s.len() && s[i + 1] == '*' {
                    norm_at(s, i + 2, NormMode::InComment { star: false }, st)
                } else if is_quote(c) {
                    norm_at(s, i + 1, NormMode::InQuote {
                        q: c,
                        start: st.out.len() as int,
                        src_start: i,
                    }, NormState {
                        out: st.out.push(c),
                        spans: st.spans,
                        src: st.src,
                        warns: st.warns,
                    })
                } else {
                    norm_at(s, i + 1, NormMode::Normal, NormState {
                        out: st.out.push(c),
                        spans: st.spans,
                        src: st.src,
                        warns: st.warns,
                    })
                }
            },
            NormMode::InComment { star } => {
                if star && c == '/' {
                    norm_at(s, i + 1, NormMode::Normal, st)
                } else {
                    norm_at(s, i + 1, NormMode::InComment { star: c == '*' }, st)
                }
            },
            NormMode::InQuote { q, start, src_start } => {
                if c == q {
                    norm_at(s, i + 1, NormMode::Normal, NormState {
                        out: st.out.push(c),
                        spans: st.spans.push((start, st.out.len() as int)),
                        src: st.src.push((src_start, i)),
                        warns: st.warns,
                    })
                } else {
                    norm_at(s, i + 1, NormMode::InQuote { q, start, src_start }, NormState {
                        out: st.out.push(c),
                        spans: st.spans,
                        src: st.src,
                        warns: st.warns,
                    })
                }
            },
        }
    }
}

/// The whole normalizing pass over `s`.
pub open spec fn spec_normalize(s: Seq<char>) -> NormState {
    norm_at(s, 0, NormMode::Normal, norm_init())
}

/// The executable span table, seen as the model's offsets.
pub open spec fn spans_view(v: Seq<(usize, usize)>) -> Seq<(int, int)> {
    Seq::new(v.len() as nat, |j: int| ((v[j].0 as int, v[j].1 as int)))
}

/// The executable spans match the model's spans pointwise.
pub open spec fn spans_match(v: Seq<(usize, usize)>, s: Seq<(int, int)>) -> bool {
    &&& v.len() == s.len()
    &&& forall|j: int|
        0 <= j < v.len() ==> (#[trigger] v[j]).0 as int == s[j].0 && v[j].1 as int == s[j].1
}

/// The scanner's executable mode; the quoted-string variant keeps the
/// span's source offset only as ghost bookkeeping.
#[derive(Clone, Copy)]
pub enum ScanMode {
    Normal,
    InComment { star: bool },
    InQuote { q: char, start: usize, src0: Ghost<int> },
}

pub open spec fn mode_view(m: ScanMode) -> NormMode {
    match m {
        ScanMode::Normal => NormMode::Normal,
        ScanMode::InComment { star } => NormMode::InComment { star },
        ScanMode::InQuote { q, start, src0 } => NormMode::InQuote {
            q,
            start: start as int,
            src_start: src0@,
        },
    }
}

/// Normalize: collapse whitespace, strip comments, record quote spans.
pub fn normalize(input: &Vec<char>) -> (r: (Vec<char>, Vec<(usize, usize)>, Vec<Warn>))
    ensures
        r.0@ == spec_normalize(input@).out,
        spans_match(r.1@, spec_normalize(input@).spans),
        r.2@ == spec_normalize(input@).warns,
{
    let n = input.len();
    let mut out: Vec<char> = Vec::new();
    let mut spans: Vec<(usize, usize)> = Vec::new();
    let mut warns: Vec<Warn> = Vec::new();
    let mut mode = ScanMode::Normal;
    let ghost mut gspans: Seq<(int, int)> = Seq::empty();
    let ghost mut gsrc: Seq<(int, int)> = Seq::empty();
    let mut i: usize = 0;
    while i < n
        invariant
            i <= n,
            n == input@.len(),
            spans_match(spans@, gspans),
            (mode matches ScanMode::InQuote { start, .. } ==> start < out@.len()),
            norm_at(
                input@,
                i as int,
                mode_view(mode),
                NormState { out: out@, spans: gspans, src: gsrc, warns: warns@ },
            ) == spec_normalize(input@),
        decreases n - i,
    {
        let ghost st_before = NormState { out: out@, spans: gspans, src: gsrc, warns: warns@ };
        let ghost m_before = mode_view(mode);
        let c = input[i];
        match mode {
            ScanMode::Normal => {
                if css_ws(c) {
                    if out.len() > 0 && out[out.len() - 1] == ' ' {
                        out.pop();
                    }
                    if out.len() > 0 && i + 1 < n {
                        out.push(' ');
                    }
                    proof {
                        assert(norm_at(input@, i as int, m_before, st_before) == norm_at(
                            input@,
                            i + 1 as int,
                            NormMode::Normal,
                            NormState { out: out@, spans: gspans, src: gsrc, warns: warns@ },
                        ));
                    }
                } else if c == '/' && i + 1 < n && input[i + 1] == '*' {
                    mode = ScanMode::InComment { star: false };
                    i += 1;
                    proof {
                        assert(norm_at(input@, i - 1 as int, m_before, st_before) == norm_at(
                            input@,
                            i + 1 as int,
                            mode_view(mode),
                            st_before,
                        ));
                    }
                } else if quote(c) {
                    mode = ScanMode::InQuote { q: c, start: out.len(), src0: Ghost(i as int) };
                    out.push(c);
                    proof {
                        assert(norm_at(input@, i as int, m_before, st_before) == norm_at(
                            input@,
                            i + 1 as int,
                            mode_view(mode),
                            NormState { out: out@, spans: gspans, src: gsrc, warns: warns@ },
                        ));
                    }
                } else {
                    out.push(c);
                    proof {
                        assert(norm_at(input@, i as int, m_before, st_before) == norm_at(
                            input@,
                            i + 1 as int,
                            NormMode::Normal,
                            NormState { out: out@, spans: gspans, src: gsrc, warns: warns@ },
                        ));
                    }
                }
            },
            ScanMode::InComment { star } => {
                if star && c == '/' {
                    mode = ScanMode::Normal;
                } else {
                    mode = ScanMode::InComment { star: c == '*' };
                }
                proof {
                    assert(norm_at(input@, i as int, m_before, st_before) == norm_at(
                        input@,
                        i + 1 as int,
                        mode_view(mode),
                        st_before,
                    ));
                }
            },
            ScanMode::InQuote { q, start, src0 } => {
                if c == q {
                    out.push(c);
                    spans.push((start, out.len() - 1));
                    mode = ScanMode::Normal;
                    proof {
                        gspans = gspans.push((start as int, out@.len() - 1));
                        gsrc = gsrc.push((src0@, i as int));
                        assert(spans_match(spans@, gspans));
                        assert(norm_at(input@, i as int, m_before, st_before) == norm_at(
                            input@,
                            i + 1 as int,
                            NormMode::Normal,
                            NormState { out: out@, spans: gspans, src: gsrc, warns: warns@ },
                        ));
                    }
                } else {
                    out.push(c);
                    proof {
                        assert(norm_at(input@, i as int, m_before, st_before) == norm_at(
                            input@,
                            i + 1 as int,
                            m_before,
                            NormState { out: out@, spans: gspans, src: gsrc, warns: warns@ },
                        ));
                    }
                }
            },
        }
        i += 1;
    }
    // end of input: close out the pending construct, if any
    let ghost st_end = NormState { out: out@, spans: gspans, src: gsrc, warns: warns@ };
    let ghost m_end = mode_view(mode);
    match mode {
        ScanMode::Normal => {},
        ScanMode::InComment { .. } => {
            warns.push(Warn::Comment);
        },
        ScanMode::InQuote { start, src0, .. } => {
            spans.push((start, out.len() - 1));
            warns.push(Warn::Quote);
            proof {
                gspans = gspans.push((start as int, out@.len() - 1));
                gsrc = gsrc.push((src0@, input@.len() - 1));
            }
        },
    }
    proof {
        assert(norm_at(input@, n as int, m_end, st_end) == spec_normalize(input@));
        assert(NormState { out: out@, spans: gspans, src: gsrc, warns: warns@ }
            == spec_normalize(input@));
    }
    (out, spans, warns)
}

} // verus!
