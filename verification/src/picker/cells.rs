//! The cells of the list, with what was matched in them marked.

use crate::graphics::{Span, SpanView, Style};
use crate::markdown::wrap::spans_text;
use crate::text::{append_str, string};
use crate::width::{capped, text_width, width_of_text};
use vstd::prelude::*;

verus! {

/// The user-perceived characters of a text, as `unicode-segmentation` parts them.
pub uninterp spec fn graphemes_of(s: Seq<char>) -> Seq<Seq<char>>;

/// `UnicodeSegmentation::graphemes`, extended: the user-perceived characters of a text, in
/// order; put together they are the text.
#[verifier::external_body]
fn graphemes(text: &str) -> (r: Vec<String>)
    ensures
        r.deep_view() == graphemes_of(text@),
        concatenated(r.deep_view(), r@.len()) == text@,
{
    unicode_segmentation::UnicodeSegmentation::graphemes(text, true).map(String::from).collect()
}

/// Where `nucleo` matches a pattern in a text, by the number of the user-perceived
/// character; `paths` says whether the text is a path, `backslash` whether a backslash parts
/// a path too, as it does on Windows. In no order, and some maybe twice.
pub uninterp spec fn matches_of(
    pattern: Seq<char>,
    text: Seq<char>,
    paths: bool,
    backslash: bool,
) -> Seq<u32>;

/// The longest pattern the matcher takes: the score of a longer one may not fit its numbers.
pub const LONGEST_PATTERN: usize = 2520;

/// The longest text the matcher takes, which numbers its characters.
pub const LONGEST_TEXT: usize = 0xffff_ffff;

/// `nucleo::pattern::Pattern::indices`, the pattern parsed with smart case and smart
/// normalization: where it matches in a text. What parts a path is the machine's own, so for
/// a path it is one of two results. The matcher adds the score of a match up in sixteen bits,
/// at most 36 for the first letter and 26 for each that follows, and numbers the characters
/// of the text in 32 bits: longer ones are left out.
#[verifier::external_body]
fn find_matches(pattern: &str, text: &str, paths: bool) -> (r: Vec<u32>)
    requires
        pattern@.len() <= LONGEST_PATTERN,
        text@.len() <= LONGEST_TEXT,
    ensures
        r@ == matches_of(pattern@, text@, paths, false) || (paths && r@ == matches_of(
            pattern@,
            text@,
            true,
            true,
        )),
{
    let mut config = nucleo::Config::DEFAULT;
    if paths {
        config.set_match_paths();
    }
    let (case, form) = (nucleo::pattern::CaseMatching::Smart, nucleo::pattern::Normalization::Smart);
    let mut indices = Vec::new();
    let pattern = nucleo::pattern::Pattern::parse(pattern, case, form);
    let text = nucleo::Utf32String::from(text);
    pattern.indices(text.slice(..), &mut nucleo::Matcher::new(config), &mut indices);
    indices
}

/// Whether `nucleo` finds nothing to match in a pattern.
pub uninterp spec fn asks_nothing(pattern: Seq<char>) -> bool;

/// `nucleo::pattern::Pattern::parse`: whether nothing to match is left of a pattern.
#[verifier::external_body]
fn is_idle(pattern: &str) -> (r: bool)
    ensures
        r == asks_nothing(pattern@),
{
    let (case, form) = (nucleo::pattern::CaseMatching::Smart, nucleo::pattern::Normalization::Smart);
    nucleo::pattern::Pattern::parse(pattern, case, form).atoms.is_empty()
}

/// The number behind `at`, which stops at the largest there is.
pub open spec fn next_number(at: u64) -> u64 {
    if at == u64::MAX {
        at
    } else {
        (at + 1) as u64
    }
}

/// A cell being drawn: the spans that are done, the one being filled, and the number of the
/// character that is next.
#[verifier::ext_equal]
pub struct Drawing {
    pub spans: Seq<SpanView>,
    pub text: Seq<char>,
    pub style: Style,
    pub at: u64,
}

impl Drawing {
    /// One more character: marked where it was matched, and in a span of its own style.
    pub open spec fn with_grapheme(
        self,
        grapheme: Seq<char>,
        style: Style,
        matched: Seq<u32>,
        mark: Style,
    ) -> Drawing {
        let style = if self.at <= u32::MAX && matched.contains(self.at as u32) {
            style.spec_patch(mark)
        } else {
            style
        };
        if style == self.style {
            Drawing { text: self.text + grapheme, at: next_number(self.at), ..self }
        } else {
            Drawing {
                spans: if self.text.len() > 0 {
                    self.spans.push(SpanView { text: self.text, style: self.style })
                } else {
                    self.spans
                },
                text: grapheme,
                style,
                at: next_number(self.at),
            }
        }
    }

    /// The first `n` characters of a span.
    pub open spec fn with_graphemes(
        self,
        graphemes: Seq<Seq<char>>,
        n: nat,
        style: Style,
        matched: Seq<u32>,
        mark: Style,
    ) -> Drawing
        decreases n,
    {
        if n == 0 {
            self
        } else {
            self.with_graphemes(graphemes, (n - 1) as nat, style, matched, mark).with_grapheme(
                graphemes[n - 1],
                style,
                matched,
                mark,
            )
        }
    }

    /// The first `n` spans of a cell.
    pub open spec fn with_spans(
        self,
        spans: Seq<SpanView>,
        n: nat,
        matched: Seq<u32>,
        mark: Style,
    ) -> Drawing
        decreases n,
    {
        if n == 0 {
            self
        } else {
            let graphemes = graphemes_of(spans[n - 1].text);
            self.with_spans(spans, (n - 1) as nat, matched, mark).with_graphemes(
                graphemes,
                graphemes.len(),
                spans[n - 1].style,
                matched,
                mark,
            )
        }
    }

    pub open spec fn done(self) -> Seq<SpanView> {
        self.spans.push(SpanView { text: self.text, style: self.style })
    }
}

/// The spans of a cell with the characters numbered in `matched` marked.
pub open spec fn marked(spans: Seq<SpanView>, matched: Seq<u32>, mark: Style) -> Seq<SpanView> {
    let none = Drawing {
        spans: Seq::empty(),
        text: Seq::empty(),
        style: Style::spec_plain(),
        at: 0,
    };
    none.with_spans(spans, spans.len(), matched, mark).done()
}

/// The columns the first `n` spans take.
pub open spec fn cell_columns(spans: Seq<SpanView>, n: nat) -> nat
    decreases n,
{
    if n == 0 {
        0
    } else {
        cell_columns(spans, (n - 1) as nat) + width_of_text(spans[n - 1].text) as nat
    }
}

fn has_index(matched: &Vec<u32>, at: u64) -> (r: bool)
    ensures
        r == (at <= u32::MAX && matched@.contains(at as u32)),
{
    if at > 0xffff_ffff {
        return false;
    }
    let mut k: usize = 0;
    while k < matched.len()
        invariant
            k <= matched@.len(),
            at <= u32::MAX,
            forall|i: int| 0 <= i < k ==> matched@[i] != at as u32,
        decreases matched@.len() - k,
    {
        if matched[k] as u64 == at {
            proof {
                assert(matched@[k as int] == at as u32);
            }
            return true;
        }
        k = k + 1;
    }
    false
}

struct Pen {
    spans: Vec<Span>,
    text: Vec<char>,
    style: Style,
    at: u64,
}

impl Pen {
    spec fn drawing(self) -> Drawing {
        Drawing {
            spans: self.spans.deep_view(),
            text: self.text@,
            style: self.style,
            at: self.at,
        }
    }

    fn put(&mut self, grapheme: &str, base: Style, matched: &Vec<u32>, mark: Style)
        ensures
            final(self).drawing() == old(self).drawing().with_grapheme(
                grapheme@,
                base,
                matched@,
                mark,
            ),
    {
        let ghost was = self.drawing();
        let style: Style = if has_index(matched, self.at) {
            base.patch(mark)
        } else {
            base
        };
        if style != self.style {
            if self.text.len() > 0 {
                let ghost before = self.spans.deep_view();
                let span: Span = Span::styled(string(self.text.as_slice()), self.style);
                self.spans.push(span);
                proof {
                    assert(self.spans.deep_view() =~= before.push(span.deep_view()));
                }
            }
            self.text = Vec::new();
            self.style = style;
        }
        append_str(&mut self.text, grapheme);
        self.at = self.at.saturating_add(1);
        proof {
            assert(Seq::<char>::empty() + grapheme@ =~= grapheme@);
            assert(self.drawing() =~= was.with_grapheme(grapheme@, base, matched@, mark));
        }
    }
}

/// Marks the characters of a cell that are numbered in `matched`.
pub fn mark_cell(spans: &Vec<Span>, matched: &Vec<u32>, mark: Style) -> (r: Vec<Span>)
    ensures
        r.deep_view() == marked(spans.deep_view(), matched@, mark),
        spans_text(r.deep_view()) == spans_text(spans.deep_view()),
{
    let ghost all = spans.deep_view();
    let mut pen: Pen = Pen { spans: Vec::new(), text: Vec::new(), style: Style::plain(), at: 0 };
    let ghost none = Drawing {
        spans: Seq::empty(),
        text: Seq::empty(),
        style: Style::spec_plain(),
        at: 0,
    };
    let mut n: usize = 0;
    proof {
        assert(pen.drawing() =~= none);
    }
    while n < spans.len()
        invariant
            n <= spans@.len(),
            all == spans.deep_view(),
            forall|i: int|
                0 <= i < n ==> concatenated(
                    graphemes_of((#[trigger] all[i]).text),
                    graphemes_of(all[i].text).len(),
                ) == all[i].text,
            pen.drawing() == none.with_spans(all, n as nat, matched@, mark),
        decreases spans@.len() - n,
    {
        let parts: Vec<String> = graphemes(spans[n].text.as_str());
        let style: Style = spans[n].style;
        let ghost start = pen.drawing();
        let ghost texts = parts.deep_view();
        let mut k: usize = 0;
        proof {
            assert(all[n as int] == spans@[n as int].deep_view());
        }
        while k < parts.len()
            invariant
                k <= parts@.len(),
                texts == parts.deep_view(),
                pen.drawing() == start.with_graphemes(texts, k as nat, style, matched@, mark),
            decreases parts@.len() - k,
        {
            proof {
                assert(texts[k as int] == parts@[k as int]@);
            }
            pen.put(parts[k].as_str(), style, matched, mark);
            k = k + 1;
        }
        proof {
            assert(texts.len() == parts@.len());
        }
        n = n + 1;
    }
    proof {
        marking_keeps_the_text(all, matched@, mark);
    }
    let ghost before = pen.spans.deep_view();
    let last: Span = Span::styled(string(pen.text.as_slice()), pen.style);
    let mut drawn: Vec<Span> = pen.spans;
    drawn.push(last);
    proof {
        assert(drawn.deep_view() =~= before.push(last.deep_view()));
    }
    drawn
}

/// The columns a cell takes.
pub fn cell_width(spans: &Vec<Span>) -> (r: usize)
    ensures
        r == capped(cell_columns(spans.deep_view(), spans@.len()) as int),
{
    let ghost all = spans.deep_view();
    let mut sum: usize = 0;
    let mut n: usize = 0;
    while n < spans.len()
        invariant
            n <= spans@.len(),
            all == spans.deep_view(),
            sum == capped(cell_columns(all, n as nat) as int),
        decreases spans@.len() - n,
    {
        proof {
            assert(all[n as int] == spans@[n as int].deep_view());
        }
        sum = sum.saturating_add(text_width(spans[n].text.as_str()));
        n = n + 1;
    }
    sum
}

/// The pattern a cell is marked by. When what is typed searches a hidden column, the shown
/// columns mark what it matched in their own text.
pub open spec fn pattern_used(own: Seq<char>, searched: Option<Seq<char>>, idle: bool) -> Seq<char> {
    match searched {
        Some(pattern) if idle => pattern,
        _ => own,
    }
}

/// Whether a cell is drawn with what a pattern matches in a text marked. Nothing is marked
/// where one of them is longer than the matcher takes; what parts a path is the machine's own.
pub open spec fn is_marked(
    drawn: Seq<SpanView>,
    spans: Seq<SpanView>,
    pattern: Seq<char>,
    text: Seq<char>,
    paths: bool,
    mark: Style,
) -> bool {
    if pattern.len() > LONGEST_PATTERN || text.len() > LONGEST_TEXT {
        drawn == marked(spans, Seq::empty(), mark)
    } else {
        ||| drawn == marked(spans, matches_of(pattern, text, paths, false), mark)
        ||| paths && drawn == marked(spans, matches_of(pattern, text, true, true), mark)
    }
}

/// The spans of a cell with what was matched in it marked: `own` is the pattern of its
/// column, `searched` that of a hidden column that is searched in its place, `text` what
/// the column is matched by.
pub fn draw_cell(
    own: &str,
    searched: Option<&str>,
    spans: &Vec<Span>,
    text: &str,
    paths: bool,
    mark: Style,
) -> (r: Vec<Span>)
    ensures
        is_marked(
            r.deep_view(),
            spans.deep_view(),
            pattern_used(own@, searched.deep_view(), asks_nothing(own@)),
            text@,
            paths,
            mark,
        ),
        spans_text(r.deep_view()) == spans_text(spans.deep_view()),
{
    let idle: bool = is_idle(own);
    let pattern: &str = match searched {
        Some(pattern) => if idle {
            pattern
        } else {
            own
        },
        None => own,
    };
    let matched: Vec<u32> = if pattern.unicode_len() > LONGEST_PATTERN || text.unicode_len()
        > LONGEST_TEXT {
        Vec::new()
    } else {
        find_matches(pattern, text, paths)
    };
    mark_cell(spans, &matched, mark)
}

// ---------------------------------------------------------------------------------------
// What marking keeps
// ---------------------------------------------------------------------------------------

/// The texts one after the other.
pub open spec fn concatenated(texts: Seq<Seq<char>>, n: nat) -> Seq<char>
    decreases n,
{
    if n == 0 {
        Seq::empty()
    } else {
        concatenated(texts, (n - 1) as nat) + texts[n - 1]
    }
}

impl Drawing {
    spec fn written(self) -> Seq<char> {
        spans_text(self.spans) + self.text
    }

    proof fn lemma_grapheme(
        self,
        grapheme: Seq<char>,
        style: Style,
        matched: Seq<u32>,
        mark: Style,
    )
        ensures
            self.with_grapheme(grapheme, style, matched, mark).written() == self.written()
                + grapheme,
    {
        let next = self.with_grapheme(grapheme, style, matched, mark);
        if next.spans.len() > self.spans.len() {
            assert(next.spans.drop_last() =~= self.spans);
        }
        assert(self.text.len() == 0 ==> self.text =~= Seq::empty());
        assert(next.written() =~= self.written() + grapheme);
    }

    proof fn lemma_graphemes(
        self,
        graphemes: Seq<Seq<char>>,
        n: nat,
        style: Style,
        matched: Seq<u32>,
        mark: Style,
    )
        ensures
            self.with_graphemes(graphemes, n, style, matched, mark).written() == self.written()
                + concatenated(graphemes, n),
        decreases n,
    {
        if n > 0 {
            self.lemma_graphemes(graphemes, (n - 1) as nat, style, matched, mark);
            self.with_graphemes(graphemes, (n - 1) as nat, style, matched, mark).lemma_grapheme(
                graphemes[n - 1],
                style,
                matched,
                mark,
            );
            assert(self.written() + concatenated(graphemes, (n - 1) as nat) + graphemes[n - 1]
                =~= self.written() + concatenated(graphemes, n));
        } else {
            assert(self.written() + concatenated(graphemes, n) =~= self.written());
        }
    }

    proof fn lemma_spans(self, spans: Seq<SpanView>, n: nat, matched: Seq<u32>, mark: Style)
        requires
            n <= spans.len(),
            forall|i: int|
                0 <= i < spans.len() ==> concatenated(
                    graphemes_of((#[trigger] spans[i]).text),
                    graphemes_of(spans[i].text).len(),
                ) == spans[i].text,
        ensures
            self.with_spans(spans, n, matched, mark).written() == self.written() + spans_text(
                spans.subrange(0, n as int),
            ),
        decreases n,
    {
        let part = spans.subrange(0, n as int);
        if n > 0 {
            let last = spans[n - 1];
            self.lemma_spans(spans, (n - 1) as nat, matched, mark);
            self.with_spans(spans, (n - 1) as nat, matched, mark).lemma_graphemes(
                graphemes_of(last.text),
                graphemes_of(last.text).len(),
                last.style,
                matched,
                mark,
            );
            assert(part.drop_last() =~= spans.subrange(0, n - 1));
            assert(part.last() == last);
            assert(self.written() + spans_text(spans.subrange(0, n - 1)) + last.text
                =~= self.written() + spans_text(part));
        } else {
            assert(part =~= Seq::empty());
            assert(self.written() + spans_text(part) =~= self.written());
        }
    }
}

/// Marking changes no text: where the parts of each span put together are the span, what is
/// drawn reads as it did.
pub proof fn marking_keeps_the_text(spans: Seq<SpanView>, matched: Seq<u32>, mark: Style)
    requires
        forall|i: int|
            0 <= i < spans.len() ==> concatenated(
                graphemes_of((#[trigger] spans[i]).text),
                graphemes_of(spans[i].text).len(),
            ) == spans[i].text,
    ensures
        spans_text(marked(spans, matched, mark)) == spans_text(spans),
{
    let none = Drawing {
        spans: Seq::empty(),
        text: Seq::empty(),
        style: Style::spec_plain(),
        at: 0,
    };
    none.lemma_spans(spans, spans.len(), matched, mark);
    let last = none.with_spans(spans, spans.len(), matched, mark);
    assert(spans.subrange(0, spans.len() as int) =~= spans);
    assert(last.done().drop_last() =~= last.spans);
    assert(none.written() =~= Seq::empty());
    assert(spans_text(last.done()) =~= last.written());
    assert(none.written() + spans_text(spans) =~= spans_text(spans));
}

} // verus!
