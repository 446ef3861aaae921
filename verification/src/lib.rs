//! A CSS minifier: collapses insignificant whitespace, strips comments,
//! drops the redundant final semicolon of a declaration block, and
//! canonicalizes color literals (`#RRGGBB` hex forms and `rgb()`/`rgba()`
//! functional forms) to their shortest equivalent spelling, without
//! building a grammar-aware parser.
//!
//! The transform runs in two passes. The normalizer collapses each
//! whitespace run to one interior space, removes comments, and copies
//! quoted strings verbatim while recording their spans. The structural
//! pass then walks the normalized buffer once, dropping spaces around
//! punctuation and resolving the one ambiguity CSS poses — whether a `:`
//! is a pseudo-class selector (space kept) or a value assignment (space
//! dropped) — with a single deferred backreference instead of a name
//! table. Color canonicalization is invoked inline wherever a literal is
//! recognized; hex digit case is preserved as found, while decoded
//! `rgb()`/`rgba()` forms come out in lowercase hex.
//!
//! Every pass is proved equal to a sequence model of the scan; malformed
//! input degrades to pass-through or a collected warning, and no input
//! can make the library panic.

use vstd::prelude::*;
use vstd::string::StringExecFns;

mod color;
mod laws;
mod lex;
mod normalize;
mod numeric;
mod rgb;
mod structure;

pub use color::try_minify_hex_color;
pub use normalize::Warn;
pub use rgb::try_decode_rgb_func;

use crate::lex::{str_chars, string_from_chars};
use crate::normalize::{normalize, spans_match, spans_view, spec_normalize, norm_init, NormMode};
use crate::structure::{minify_structural, spec_minify_pass, span_table_wf, lemma_norm_at_wf};

verus! {

/// A structural warning collected while minifying: the input ended
/// inside a comment or inside a quoted string.
pub struct ParseError {
    pub msg: String,
}

impl ParseError {
    /// Wrap a warning message.
    pub fn from_msg(msg: &str) -> (r: Self)
        ensures
            r.msg@ == msg@,
    {
        ParseError { msg: String::from_str(msg) }
    }
}

/// The message text attached to each warning kind.
pub open spec fn warn_msg(w: Warn) -> Seq<char> {
    match w {
        Warn::Comment => "reached end of input while inside comment"@,
        Warn::Quote => "reached end of input while inside quote string"@,
    }
}

/// The messages of a warning list.
pub open spec fn warn_msgs(ws: Seq<Warn>) -> Seq<Seq<char>> {
    ws.map_values(|w: Warn| warn_msg(w))
}

/// The messages of a collected error list.
pub open spec fn errors_view(es: Seq<ParseError>) -> Seq<Seq<char>> {
    Seq::new(es.len(), |i: int| es[i].msg@)
}

/// The minified text of `s`: the structural pass over the normalized
/// buffer and its quote spans.
pub open spec fn spec_minify(s: Seq<char>) -> Seq<char> {
    spec_minify_pass(spec_normalize(s).out, spec_normalize(s).spans)
}

/// The warnings the transform collects on `s`.
pub open spec fn spec_warns(s: Seq<char>) -> Seq<Warn> {
    spec_normalize(s).warns
}

/// The minifier: feed it one source text with `minify_string`, then take
/// the result with `get_output`. Warnings accumulate in `errors`.
pub struct Minifier {
    output0: Vec<char>,
    output1: Vec<char>,
    quotes0: Vec<(usize, usize)>,
    errors: Vec<ParseError>,
}

impl Minifier {
    /// The minified output, as the model sees it.
    pub closed spec fn output_model(self) -> Seq<char> {
        self.output1@
    }

    /// The collected warning messages, as the model sees them.
    pub closed spec fn errors_model(self) -> Seq<Seq<char>> {
        errors_view(self.errors@)
    }

    pub fn new() -> (r: Self)
        ensures
            r.output_model() == Seq::<char>::empty(),
            r.errors_model() == Seq::<Seq<char>>::empty(),
    {
        let r = Minifier {
            output0: Vec::new(),
            output1: Vec::new(),
            quotes0: Vec::new(),
            errors: Vec::new(),
        };
        proof {
            assert(r.errors_model() =~= Seq::<Seq<char>>::empty());
        }
        r
    }

    /// Take the minified text.
    pub fn get_output(self) -> (r: String)
        ensures
            r@ == self.output_model(),
    {
        string_from_chars(&self.output1)
    }

    /// The collected warning messages.
    pub fn error_messages(&self) -> (r: Vec<String>)
        ensures
            r@.len() == self.errors_model().len(),
            forall|i: int| 0 <= i < r@.len() ==> (#[trigger] r@[i])@ == self.errors_model()[i],
    {
        let mut r: Vec<String> = Vec::new();
        let mut i: usize = 0;
        let n = self.errors.len();
        while i < n
            invariant
                i <= n,
                n == self.errors@.len(),
                r@.len() == i,
                forall|j: int| 0 <= j < i ==> (#[trigger] r@[j])@ == errors_view(self.errors@)[j],
            decreases n - i,
        {
            r.push(self.errors[i].msg.clone());
            i += 1;
        }
        r
    }

    fn add_error_msg(&mut self, msg: &str)
        ensures
            final(self).errors@.len() == old(self).errors@.len() + 1,
            forall|j: int|
                0 <= j < old(self).errors@.len() ==> final(self).errors@[j] == old(
                    self,
                ).errors@[j],
            final(self).errors@.last().msg@ == msg@,
            final(self).output0 == old(self).output0,
            final(self).output1 == old(self).output1,
            final(self).quotes0 == old(self).quotes0,
    {
        self.errors.push(ParseError::from_msg(msg));
    }

    /// The normalizing pass: collapse whitespace, strip comments, record
    /// quote spans, collect warnings.
    fn pass0(&mut self, input: &Vec<char>)
        ensures
            final(self).output0@ == spec_normalize(input@).out,
            spans_match(final(self).quotes0@, spec_normalize(input@).spans),
            final(self).output1 == old(self).output1,
            errors_view(final(self).errors@) == errors_view(old(self).errors@) + warn_msgs(
                spec_warns(input@),
            ),
    {
        let (out, spans, warns) = normalize(input);
        self.output0 = out;
        self.quotes0 = spans;
        let ghost warns0 = spec_warns(input@);
        let ghost errs0 = old(self).errors@;
        let n = warns.len();
        let mut i: usize = 0;
        while i < n
            invariant
                i <= n,
                n == warns@.len(),
                warns@ == warns0,
                self.output0@ == spec_normalize(input@).out,
                spans_match(self.quotes0@, spec_normalize(input@).spans),
                self.output1 == old(self).output1,
                errors_view(self.errors@) == errors_view(errs0) + warn_msgs(
                    warns0.subrange(0, i as int),
                ),
            decreases n - i,
        {
            let ghost es_before = self.errors@;
            match warns[i] {
                Warn::Comment => {
                    self.add_error_msg("reached end of input while inside comment");
                },
                Warn::Quote => {
                    self.add_error_msg("reached end of input while inside quote string");
                },
            }
            proof {
                let es = self.errors@;
                assert(warns0.subrange(0, i + 1) =~= warns0.subrange(0, i as int).push(
                    warns0[i as int],
                ));
                assert(warn_msgs(warns0.subrange(0, i + 1)) =~= warn_msgs(
                    warns0.subrange(0, i as int),
                ).push(warn_msg(warns0[i as int])));
                assert(es.last().msg@ == warn_msg(warns0[i as int]));
                assert(warn_msgs(warns0.subrange(0, i as int)).len() == i);
                assert(errors_view(es_before).len() == es_before.len());
                assert(es_before.len() == errs0.len() + i);
                assert(es.len() == errs0.len() + i + 1);
                assert(warn_msgs(warns0.subrange(0, i + 1)).len() == i + 1);
                assert forall|j: int|
                    0 <= j < es.len() implies errors_view(es)[j] == (errors_view(errs0)
                    + warn_msgs(warns0.subrange(0, i + 1)))[j] by {
                    if j < es_before.len() {
                        assert(es[j] == es_before[j]);
                        assert(errors_view(es_before)[j] == es_before[j].msg@);
                    }
                }
                assert(errors_view(es) =~= errors_view(errs0) + warn_msgs(
                    warns0.subrange(0, i + 1),
                ));
            }
            i += 1;
        }
        proof {
            assert(warns0.subrange(0, n as int) =~= warns0);
        }
    }

    /// The structural pass over the normalized buffer.
    fn pass1(&mut self)
        requires
            span_table_wf(old(self).output0@, spans_view(old(self).quotes0@)),
        ensures
            final(self).output1@ == spec_minify_pass(
                old(self).output0@,
                spans_view(old(self).quotes0@),
            ),
            final(self).errors == old(self).errors,
    {
        let out = minify_structural(&self.output0, &self.quotes0);
        self.output0.clear();
        self.output1 = out;
    }

    /// Minify `input`: the normalized buffer is built, then walked once;
    /// the result is exactly the model's transform, and the collected
    /// warnings are exactly the model's warnings, appended in order.
    pub fn minify_string(&mut self, input: &String)
        ensures
            final(self).output_model() == spec_minify(input@),
            final(self).errors_model() == old(self).errors_model() + warn_msgs(spec_warns(input@)),
    {
        let chars = str_chars(input.as_str());
        proof {
            lemma_norm_at_wf(chars@, 0, NormMode::Normal, norm_init());
        }
        self.pass0(&chars);
        proof {
            assert(spans_view(self.quotes0@) =~= spec_normalize(chars@).spans);
        }
        self.pass1();
    }
}

} // verus!
