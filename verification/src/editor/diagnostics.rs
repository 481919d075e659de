//! What is wrong with the line the caret is on, in a box floating over the code.

use crate::editor::highlights::{Diagnostic, Severity};
use crate::filter::{split_words, words_from, words_of};
use crate::graphics::{capped_cell, less, max, min, Rect};
use crate::text::{append, append_str, blank, chars, first_space, ink, is_space, lemma_first_space,
    lemma_ink_blank, lemma_ink_joined, lemma_skip_space, replace, replaced, skip_space, string};
use crate::width::{columns, glyph_columns, lemma_columns_joined, lemma_columns_push, plain,
    text_width, width_of_text};
use vstd::prelude::*;
use vstd::slice::slice_subrange;

verus! {

// ---------------------------------------------------------------------------------------
// Cutting a message into lines
// ---------------------------------------------------------------------------------------

/// How many characters of a text, `k` of which fit, go on a line: those before the first that
/// makes it wider than the room.
pub open spec fn fitting(text: Seq<char>, k: int, width: int) -> int
    decreases text.len() - k,
{
    if k < text.len() && width_of_text(text.take(k + 1)) <= width {
        fitting(text, k + 1, width)
    } else {
        k
    }
}

/// The lines done and the one being written.
#[verifier::ext_equal]
pub struct Writing {
    pub lines: Seq<Seq<char>>,
    pub line: Seq<char>,
}

impl Writing {
    /// A line wider than the room is cut inside a word, as often as it takes.
    pub open spec fn chopped(self, width: int) -> Writing
        decreases self.line.len(),
    {
        let at = fitting(self.line, 0, width);
        if width_of_text(self.line) > width && 0 < at <= self.line.len() {
            Writing {
                lines: self.lines.push(self.line.take(at)),
                line: self.line.skip(at),
            }.chopped(width)
        } else {
            self
        }
    }

    /// One word more: on the line where it fits, on the next where it does not.
    pub open spec fn with_word(self, word: Seq<char>, width: int) -> Writing {
        if self.line.len() == 0 {
            Writing { line: word, ..self }.chopped(width)
        } else if width_of_text(self.line) + 1 + width_of_text(word) <= width {
            Writing { line: self.line + " "@ + word, ..self }.chopped(width)
        } else {
            Writing { lines: self.lines.push(self.line), line: word }.chopped(width)
        }
    }

    /// The first `n` words more.
    pub open spec fn with_words(self, words: Seq<Seq<char>>, n: nat, width: int) -> Writing
        decreases n,
    {
        if n == 0 {
            self
        } else {
            self.with_words(words, (n - 1) as nat, width).with_word(words[n - 1], width)
        }
    }

    /// All the lines.
    pub open spec fn done(self) -> Seq<Seq<char>> {
        if self.line.len() > 0 {
            self.lines.push(self.line)
        } else {
            self.lines
        }
    }
}

/// The lines of a message in a width.
pub open spec fn wrapped(message: Seq<char>, width: int) -> Seq<Seq<char>> {
    let words = words_of(message);
    Writing { lines: Seq::empty(), line: Seq::empty() }.with_words(words, words.len(), width).done()
}

/// Whether every line has something on it, and the room for it.
pub open spec fn lines_fit(lines: Seq<Seq<char>>, width: int) -> bool {
    forall|i: int|
        0 <= i < lines.len() ==> (#[trigger] lines[i]).len() > 0 && width_of_text(lines[i])
            <= width
}

/// No character of a text is wider than the room. White space is not counted: lines break at
/// it.
pub open spec fn none_wider(text: Seq<char>, width: int) -> bool {
    forall|i: int|
        0 <= i < text.len() && !is_space(#[trigger] text[i]) ==> glyph_columns(text[i]) <= width
}

/// Every character of a line has the room on a line of its own.
spec fn each_fits(text: Seq<char>, width: int) -> bool {
    width >= 2 || forall|i: int|
        0 <= i < text.len() ==> glyph_columns(#[trigger] text[i]) <= width
}

proof fn lemma_fitting(text: Seq<char>, k: int, width: int)
    requires
        0 <= k <= text.len(),
    ensures
        k <= fitting(text, k, width) <= text.len(),
        forall|n: int|
            k < n <= fitting(text, k, width) ==> width_of_text(#[trigger] text.take(n)) <= width,
        fitting(text, k, width) < text.len() ==> width_of_text(
            text.take(fitting(text, k, width) + 1),
        ) > width,
    decreases text.len() - k,
{
    if k < text.len() && width_of_text(text.take(k + 1)) <= width {
        lemma_fitting(text, k + 1, width);
        assert forall|n: int| k < n <= fitting(text, k, width) implies width_of_text(
            #[trigger] text.take(n),
        ) <= width by {
            if n == k + 1 {
            }
        }
    }
}

struct Writer {
    lines: Vec<String>,
    line: Vec<char>,
}

impl Writer {
    spec fn view(&self) -> Writing {
        Writing { lines: self.lines.deep_view(), line: self.line@ }
    }

    fn chop(&mut self, width: usize)
        requires
            each_fits(old(self).line@, width as int),
            lines_fit(old(self)@.lines, width as int),
        ensures
            final(self)@ == old(self)@.chopped(width as int),
            each_fits(final(self).line@, width as int),
            lines_fit(final(self)@.lines, width as int),
            width_of_text(final(self).line@) <= width,
    {
        loop
            invariant
                self@.chopped(width as int) == old(self)@.chopped(width as int),
                each_fits(self.line@, width as int),
                lines_fit(self@.lines, width as int),
            decreases self.line@.len(),
        {
            let ghost whole = self.line@;
            let text: String = string(self.line.as_slice());
            if text_width(text.as_str()) <= width {
                return ;
            }
            let mut at: usize = 0;
            let mut found: bool = false;
            proof {
                lemma_fitting(whole, 0, width as int);
            }
            while at < self.line.len() && !found
                invariant
                    at <= self.line@.len(),
                    whole == self.line@,
                    each_fits(whole, width as int),
                    fitting(whole, 0, width as int) == fitting(whole, at as int, width as int),
                    found ==> at == fitting(whole, 0, width as int) && at > 0,
                decreases self.line@.len() - at + (if found { 0int } else { 1 }),
            {
                let part: String = string(slice_subrange(self.line.as_slice(), 0, at + 1));
                proof {
                    assert(part@ =~= whole.take(at + 1));
                }
                let used: usize = text_width(part.as_str());
                if used <= width {
                    at = at + 1;
                } else {
                    proof {
                        if at == 0 {
                            lemma_first_fits(whole, width as int, used);
                        }
                    }
                    found = true;
                }
            }
            let ghost before = self.lines.deep_view();
            let line: String = string(slice_subrange(self.line.as_slice(), 0, at));
            let rest: Vec<char> = slice_to_vec(
                slice_subrange(self.line.as_slice(), at, self.line.len()),
            );
            self.lines.push(line);
            self.line = rest;
            proof {
                lemma_fitting(whole, 0, width as int);
                assert(line@ =~= whole.take(at as int));
                assert(rest@ =~= whole.skip(at as int));
                assert(self.lines.deep_view() =~= before.push(line@));
                if whole.len() == 0 {
                    assert(plain(whole));
                }
            }
        }
    }

    fn add_word(&mut self, word: &str, width: usize)
        requires
            word@.len() > 0,
            each_fits(word@, width as int),
            each_fits(old(self).line@, width as int),
            width_of_text(old(self).line@) <= width,
            lines_fit(old(self)@.lines, width as int),
        ensures
            final(self)@ == old(self)@.with_word(word@, width as int),
            each_fits(final(self).line@, width as int),
            lines_fit(final(self)@.lines, width as int),
            width_of_text(final(self).line@) <= width,
    {
        if self.line.len() == 0 {
            self.line = chars(word);
        } else {
            let text: String = string(self.line.as_slice());
            let sum: u128 = text_width(text.as_str()) as u128 + 1 + text_width(word) as u128;
            if sum <= width as u128 {
                append_str(&mut self.line, " ");
                append_str(&mut self.line, word);
                proof {
                    reveal_strlit(" ");
                    assert(self.line@ =~= old(self).line@ + " "@ + word@);
                    assert(" "@ =~= seq![' ']);
                }
            } else {
                let ghost before = self.lines.deep_view();
                self.lines.push(text);
                proof {
                    assert(self.lines.deep_view() =~= before.push(text@));
                }
                self.line = chars(word);
            }
        }
        self.chop(width);
    }
}

proof fn lemma_first_fits(text: Seq<char>, width: int, used: usize)
    requires
        text.len() > 0,
        each_fits(text, width),
        used == width_of_text(text.take(1)),
        used <= 2,
        text.take(1) == seq!['\u{fe0f}'] ==> used == 0,
    ensures
        used <= width,
{
    let one = text.take(1);
    assert(one =~= seq![text[0]]);
    if text[0] != '\u{fe0f}' {
        assert(plain(one));
        assert(Seq::<char>::empty().push(text[0]) =~= one);
        lemma_columns_push(Seq::empty(), text[0]);
    }
}

fn slice_to_vec(s: &[char]) -> (r: Vec<char>)
    ensures
        r@ == s@,
{
    let mut out: Vec<char> = Vec::new();
    append(&mut out, s);
    proof {
        assert(out@ =~= s@);
    }
    out
}

/// The words of a text have no white space in them, nor any character it has not.
proof fn lemma_words(s: Seq<char>, i: int)
    requires
        0 <= i <= s.len(),
    ensures
        forall|k: int|
            0 <= k < words_from(s, i).len() ==> (#[trigger] words_from(s, i)[k]).len() > 0,
        forall|k: int, j: int|
            #![trigger words_from(s, i)[k][j]]
            0 <= k < words_from(s, i).len() && 0 <= j < words_from(s, i)[k].len()
                ==> !is_space(words_from(s, i)[k][j]) && s.contains(words_from(s, i)[k][j]),
    decreases s.len() - i,
{
    lemma_skip_space(s, i);
    let start = skip_space(s, i);
    if start < s.len() {
        lemma_first_space(s, start);
        let end = first_space(s, start);
        lemma_words(s, end);
        lemma_no_space(s, start);
        let word = s.subrange(start, end);
        let rest = words_from(s, end);
        let all = words_from(s, i);
        assert(all =~= seq![word] + rest);
        assert forall|k: int| 0 <= k < all.len() implies (#[trigger] all[k]).len() > 0 by {
            if k > 0 {
                assert(all[k] == rest[k - 1]);
            }
        }
        assert forall|k: int, j: int|
            #![trigger all[k][j]]
            0 <= k < all.len() && 0 <= j < all[k].len() implies !is_space(all[k][j])
            && s.contains(all[k][j]) by {
            if k > 0 {
                assert(all[k] == rest[k - 1]);
                assert(!is_space(rest[k - 1][j]));
            } else {
                assert(all[k][j] == s[start + j]);
            }
        }
    }
}

proof fn lemma_no_space(s: Seq<char>, i: int)
    requires
        0 <= i <= s.len(),
    ensures
        forall|j: int| i <= j < first_space(s, i) ==> !is_space(#[trigger] s[j]),
    decreases s.len() - i,
{
    if i < s.len() && !is_space(s[i]) {
        lemma_no_space(s, i + 1);
    }
}

/// A message cut into lines no wider than `width`, breaking between words where it can and
/// inside one only when a single word is wider than the box.
pub fn wrap_to_width(message: &str, width: usize) -> (r: Vec<String>)
    requires
        width >= 2 || none_wider(message@, width as int),
    ensures
        r.deep_view() == wrapped(message@, width as int),
        lines_fit(r.deep_view(), width as int),
        ink(flattened(r.deep_view(), r@.len())) == ink(message@),
{
    let letters: Vec<char> = chars(message);
    let words: Vec<String> = split_words(letters.as_slice());
    let ghost all = words_of(message@);
    let mut writer: Writer = Writer { lines: Vec::new(), line: Vec::new() };
    let ghost none = Writing { lines: Seq::empty(), line: Seq::empty() };
    let mut n: usize = 0;
    proof {
        assert(writer@ =~= none);
        lemma_words(message@, 0);
        wrapping_keeps_the_order(message@, width as int);
    }
    while n < words.len()
        invariant
            n <= words@.len(),
            width >= 2 || none_wider(message@, width as int),
            all == words_of(message@),
            words.deep_view() == all,
            none == (Writing { lines: Seq::empty(), line: Seq::empty() }),
            writer@ == none.with_words(all, n as nat, width as int),
            forall|k: int| 0 <= k < all.len() ==> (#[trigger] all[k]).len() > 0,
            forall|k: int, j: int|
                #![trigger all[k][j]]
                0 <= k < all.len() && 0 <= j < all[k].len() ==> !is_space(all[k][j])
                    && message@.contains(all[k][j]),
            each_fits(writer.line@, width as int),
            lines_fit(writer@.lines, width as int),
            width_of_text(writer.line@) <= width,
        decreases words@.len() - n,
    {
        proof {
            assert(all[n as int] == words@[n as int]@);
            let word = words@[n as int]@;
            if width < 2 {
                assert forall|j: int| 0 <= j < word.len() implies glyph_columns(#[trigger] word[j])
                    <= width by {
                    assert(all[n as int][j] == word[j]);
                    let at = choose|at: int|
                        0 <= at < message@.len() && message@[at] == word[j];
                    assert(!is_space(message@[at]));
                }
            }
        }
        writer.add_word(words[n].as_str(), width);
        n = n + 1;
    }
    let Writer { mut lines, line } = writer;
    if line.len() > 0 {
        let ghost before = lines.deep_view();
        let last: String = string(line.as_slice());
        lines.push(last);
        proof {
            assert(lines.deep_view() =~= before.push(last@));
        }
    }
    lines
}

// ---------------------------------------------------------------------------------------
// What cutting keeps
// ---------------------------------------------------------------------------------------

/// The first `n` lines, one behind the other.
pub open spec fn flattened(lines: Seq<Seq<char>>, n: nat) -> Seq<char>
    decreases n,
{
    if n == 0 {
        Seq::empty()
    } else {
        flattened(lines, (n - 1) as nat) + lines[n - 1]
    }
}

proof fn lemma_flattened_push(lines: Seq<Seq<char>>, line: Seq<char>, n: nat)
    requires
        n <= lines.len(),
    ensures
        flattened(lines.push(line), n) == flattened(lines, n),
    decreases n,
{
    if n > 0 {
        lemma_flattened_push(lines, line, (n - 1) as nat);
        assert(lines.push(line)[n - 1] == lines[n - 1]);
    }
}

/// All that is written so far.
spec fn all_written(w: Writing) -> Seq<char> {
    flattened(w.lines, w.lines.len()) + w.line
}

proof fn lemma_pushed(lines: Seq<Seq<char>>, line: Seq<char>)
    ensures
        flattened(lines.push(line), lines.len() + 1) == flattened(lines, lines.len()) + line,
{
    lemma_flattened_push(lines, line, lines.len());
    assert(lines.push(line)[lines.len() as int] == line);
}

proof fn lemma_chopped(w: Writing, width: int)
    ensures
        all_written(w.chopped(width)) == all_written(w),
    decreases w.line.len(),
{
    let at = fitting(w.line, 0, width);
    if width_of_text(w.line) > width && 0 < at <= w.line.len() {
        let next = Writing { lines: w.lines.push(w.line.take(at)), line: w.line.skip(at) };
        lemma_chopped(next, width);
        lemma_pushed(w.lines, w.line.take(at));
        assert(w.line.take(at) + w.line.skip(at) =~= w.line);
        assert(all_written(next) =~= all_written(w));
    }
}

proof fn lemma_word_written(w: Writing, word: Seq<char>, width: int)
    ensures
        ink(all_written(w.with_word(word, width))) == ink(all_written(w)) + ink(word),
{
    let done = flattened(w.lines, w.lines.len());
    if w.line.len() == 0 {
        let next = Writing { line: word, ..w };
        lemma_chopped(next, width);
        assert(w.line =~= Seq::empty());
        assert(done + w.line =~= done);
        lemma_ink_joined(done, word);
    } else if width_of_text(w.line) + 1 + width_of_text(word) <= width {
        let next = Writing { line: w.line + " "@ + word, ..w };
        lemma_chopped(next, width);
        reveal_strlit(" ");
        assert(done + (w.line + " "@ + word) =~= done + w.line + " "@ + word);
        lemma_ink_joined(done + w.line + " "@, word);
        lemma_ink_joined(done + w.line, " "@);
        assert(blank(" "@));
        lemma_ink_blank(" "@);
        assert(ink(done + w.line) + Seq::<char>::empty() =~= ink(done + w.line));
    } else {
        let next = Writing { lines: w.lines.push(w.line), line: word };
        lemma_chopped(next, width);
        lemma_pushed(w.lines, w.line);
        lemma_ink_joined(done + w.line, word);
    }
}

proof fn lemma_words_written(w: Writing, words: Seq<Seq<char>>, n: nat, width: int)
    requires
        n <= words.len(),
    ensures
        ink(all_written(w.with_words(words, n, width))) == ink(all_written(w)) + ink(
            flattened(words, n),
        ),
    decreases n,
{
    if n == 0 {
        assert(ink(flattened(words, 0)) =~= Seq::empty());
        assert(ink(all_written(w)) + Seq::<char>::empty() =~= ink(all_written(w)));
    } else {
        let m = (n - 1) as nat;
        lemma_words_written(w, words, m, width);
        lemma_word_written(w.with_words(words, m, width), words[n - 1], width);
        lemma_ink_joined(flattened(words, m), words[n - 1]);
        assert(ink(all_written(w)) + ink(flattened(words, m)) + ink(words[n - 1]) =~= ink(
            all_written(w),
        ) + ink(flattened(words, n)));
    }
}

proof fn lemma_flattened_front(first: Seq<char>, rest: Seq<Seq<char>>, n: nat)
    requires
        n <= rest.len(),
    ensures
        flattened(seq![first] + rest, n + 1) == first + flattened(rest, n),
    decreases n,
{
    let all = seq![first] + rest;
    if n == 0 {
        assert(flattened(all, 0) + all[0] =~= first + flattened(rest, 0));
        assert(flattened(all, 1) == flattened(all, 0) + all[0]);
    } else {
        lemma_flattened_front(first, rest, (n - 1) as nat);
        assert(all[n as int] == rest[n - 1]);
        assert(flattened(all, n + 1) =~= first + flattened(rest, n));
    }
}

proof fn lemma_ink_words(s: Seq<char>, i: int)
    requires
        0 <= i <= s.len(),
    ensures
        ink(flattened(words_from(s, i), words_from(s, i).len())) == ink(
            s.subrange(i, s.len() as int),
        ),
    decreases s.len() - i,
{
    lemma_skip_space(s, i);
    let start = skip_space(s, i);
    let gap = s.subrange(i, start);
    assert(blank(gap)) by {
        lemma_skipped_blank(s, i);
    }
    lemma_ink_blank(gap);
    if start < s.len() {
        lemma_first_space(s, start);
        let end = first_space(s, start);
        let word = s.subrange(start, end);
        let rest = words_from(s, end);
        lemma_ink_words(s, end);
        lemma_flattened_front(word, rest, rest.len());
        assert(words_from(s, i) =~= seq![word] + rest);
        assert(s.subrange(i, s.len() as int) =~= gap + word + s.subrange(end, s.len() as int));
        lemma_ink_joined(gap + word, s.subrange(end, s.len() as int));
        lemma_ink_joined(gap, word);
        lemma_ink_joined(word, flattened(rest, rest.len()));
        assert(Seq::<char>::empty() + ink(word) =~= ink(word));
    } else {
        assert(gap =~= s.subrange(i, s.len() as int));
        assert(words_from(s, i) =~= Seq::empty());
    }
}

proof fn lemma_skipped_blank(s: Seq<char>, i: int)
    requires
        0 <= i <= s.len(),
    ensures
        forall|j: int| i <= j < skip_space(s, i) ==> is_space(#[trigger] s[j]),
    decreases s.len() - i,
{
    if i < s.len() && is_space(s[i]) {
        lemma_skipped_blank(s, i + 1);
    }
}

/// A message cut into lines holds the same characters in the same order: only white space
/// comes and goes.
pub proof fn wrapping_keeps_the_order(message: Seq<char>, width: int)
    ensures
        ({
            let lines = wrapped(message, width);
            ink(flattened(lines, lines.len())) == ink(message)
        }),
{
    let words = words_of(message);
    let none = Writing { lines: Seq::empty(), line: Seq::empty() };
    let last = none.with_words(words, words.len(), width);
    lemma_words_written(none, words, words.len(), width);
    lemma_ink_words(message, 0);
    assert(message.subrange(0, message.len() as int) =~= message);
    assert(all_written(none) =~= Seq::empty());
    assert(ink(Seq::<char>::empty()) + ink(message) =~= ink(message));
    if last.line.len() > 0 {
        lemma_pushed(last.lines, last.line);
    } else {
        assert(last.line =~= Seq::empty());
        assert(all_written(last) =~= flattened(last.lines, last.lines.len()));
    }
}

/// A word that has the room is not cut: it goes behind the line where both fit with a space
/// between them, and else on a line of its own, so no line ends early.
pub proof fn a_word_that_fits_is_whole(w: Writing, word: Seq<char>, width: int)
    requires
        plain(w.line),
        plain(word),
        columns(word) <= width,
    ensures
        w.with_word(word, width) == if w.line.len() == 0 {
            Writing { line: word, ..w }
        } else if columns(w.line) + 1 + columns(word) <= width {
            Writing { line: w.line + " "@ + word, ..w }
        } else {
            Writing { lines: w.lines.push(w.line), line: word }
        },
{
    reveal_strlit(" ");
    let joined = w.line + " "@ + word;
    lemma_plain_joined(w.line, " "@);
    lemma_plain_joined(w.line + " "@, word);
    lemma_columns_joined(w.line, " "@);
    lemma_columns_joined(w.line + " "@, word);
    assert(" "@ =~= Seq::empty().push(' '));
    lemma_columns_push(Seq::empty(), ' ');
}

/// A word too wide for the room is cut where the first line that fits ends: one character more
/// would make it wider than the room.
pub proof fn a_cut_fills_the_line(w: Writing, width: int)
    requires
        width_of_text(w.line) > width,
        fitting(w.line, 0, width) > 0,
    ensures
        ({
            let at = fitting(w.line, 0, width);
            &&& at < w.line.len() ==> width_of_text(w.line.take(at + 1)) > width
            &&& width_of_text(w.line.take(at)) <= width
            &&& w.chopped(width) == Writing {
                lines: w.lines.push(w.line.take(at)),
                line: w.line.skip(at),
            }.chopped(width)
        }),
{
    lemma_fitting(w.line, 0, width);
}

proof fn lemma_plain_joined(a: Seq<char>, b: Seq<char>)
    requires
        plain(a),
        plain(b),
    ensures
        plain(a + b),
{
    if (a + b).contains('\u{fe0f}') {
        let k = choose|k: int| 0 <= k < (a + b).len() && (a + b)[k] == '\u{fe0f}';
        if k < a.len() {
            assert(a[k] == '\u{fe0f}');
        } else {
            assert(b[k - a.len()] == '\u{fe0f}');
        }
    }
}

// ---------------------------------------------------------------------------------------
// The box
// ---------------------------------------------------------------------------------------

/// The widest a box is, its borders included.
pub const BOX_WIDTH: u16 = 72;

/// The most lines of a box: past that it hides more of the file than the message is worth.
pub const BOX_LINES: usize = 8;

/// Whether a diagnostic is told in the box of a line: only what is worth interrupting the
/// reading of the file for. A hint is told by the underline under it and by resting the
/// pointer on it.
pub open spec fn told_on(diagnostic: Diagnostic, line: usize) -> bool {
    diagnostic.line == line && (diagnostic.severity == Some(Severity::Error)
        || diagnostic.severity == Some(Severity::Warning) || diagnostic.severity is None)
}

/// What is said of a diagnostic: its message on one line, and its code.
pub open spec fn said(diagnostic: Diagnostic) -> Seq<char> {
    replaced(diagnostic.message@, "\n"@, " "@) + match diagnostic.code {
        Some(code) => " ("@ + code@ + ")"@,
        None => Seq::empty(),
    }
}

/// Lines with whether each is of an error; the others are warnings.
pub open spec fn all_of(lines: Seq<Seq<char>>, error: bool) -> Seq<(Seq<char>, bool)> {
    Seq::new(lines.len(), |i: int| (lines[i], error))
}

/// The lines of the first `n` diagnostics that are told on a line.
pub open spec fn told_lines(diagnostics: Seq<Diagnostic>, line: usize, width: int, n: nat) -> Seq<
    (Seq<char>, bool),
>
    decreases n,
{
    if n == 0 {
        Seq::empty()
    } else {
        let before = told_lines(diagnostics, line, width, (n - 1) as nat);
        let diagnostic = diagnostics[n - 1];
        if told_on(diagnostic, line) {
            before + all_of(
                wrapped(said(diagnostic), width),
                diagnostic.severity == Some(Severity::Error),
            )
        } else {
            before
        }
    }
}

/// Whether any of the first `n` diagnostics is told on a line.
pub open spec fn any_told(diagnostics: Seq<Diagnostic>, line: usize, n: nat) -> bool {
    exists|i: int| 0 <= i < n && told_on(#[trigger] diagnostics[i], line)
}

/// The lines there is room for, the last of them saying where some are left out.
pub open spec fn clipped(lines: Seq<(Seq<char>, bool)>, rows: int) -> Seq<(Seq<char>, bool)> {
    if lines.len() > rows {
        let kept = lines.take(rows);
        kept.drop_last().push((kept.last().0 + "\u{2026}"@, kept.last().1))
    } else {
        lines
    }
}

/// The widest of the first `n` lines.
pub open spec fn widest(lines: Seq<(Seq<char>, bool)>, n: nat) -> int
    decreases n,
{
    if n == 0 {
        0
    } else {
        max(widest(lines, (n - 1) as nat), width_of_text(lines[n - 1].0) as int)
    }
}

/// The columns the text in a box may take: the box is the text plus a space and a border on
/// each side.
pub open spec fn content_width(viewport: Rect) -> int {
    min(BOX_WIDTH as int, less(viewport.width as int, 2)) - 4
}

/// The row of the screen the caret is on.
pub open spec fn caret_row(viewport: Rect, row: u16) -> int {
    capped_cell(viewport.y + row) as int
}

/// The rows under the caret's.
pub open spec fn rows_under(viewport: Rect, row: u16) -> int {
    less(viewport.spec_bottom() as int, caret_row(viewport, row) + 1)
}

/// The rows over the caret's.
pub open spec fn rows_over(viewport: Rect, row: u16) -> int {
    less(caret_row(viewport, row), viewport.y as int)
}

/// The rows a box of so many lines takes, its borders included.
pub open spec fn box_height(viewport: Rect, row: u16, lines: int) -> int {
    min(
        min(lines, BOX_LINES as int) + 2,
        max(rows_under(viewport, row), rows_over(viewport, row)),
    )
}

/// Where a box goes: under the caret when it fits there, over it when it does not. The line
/// the caret is on is never covered, whichever way it goes.
pub open spec fn box_area(viewport: Rect, row: u16, column: u16, width: u16, height: int) -> Rect {
    let x = min(
        capped_cell(viewport.x + column) as int,
        less(viewport.spec_right() as int, width as int),
    );
    let y = if height <= rows_under(viewport, row) {
        caret_row(viewport, row) + 1
    } else {
        caret_row(viewport, row) - height
    };
    viewport.spec_intersection(
        Rect { x: x as u16, y: y as u16, width, height: height as u16 },
    )
}

/// A box as drawn: where it is, and its lines with whether each is of an error.
#[derive(Debug)]
pub struct DiagnosticsBox {
    pub area: Rect,
    pub lines: Vec<(String, bool)>,
}

fn tells(diagnostic: &Diagnostic, line: usize) -> (r: bool)
    ensures
        r == told_on(*diagnostic, line),
{
    let worth: bool = match diagnostic.severity {
        Some(Severity::Error) => true,
        Some(Severity::Warning) => true,
        None => true,
        _ => false,
    };
    worth && diagnostic.line == line
}

fn say(diagnostic: &Diagnostic) -> (r: String)
    ensures
        r@ == said(*diagnostic),
{
    proof {
        reveal_strlit("\n");
    }
    let letters: Vec<char> = chars(diagnostic.message.as_str());
    let mut out: Vec<char> = replace(letters.as_slice(), "\n", " ");
    let ghost message = out@;
    match &diagnostic.code {
        Some(code) => {
            append_str(&mut out, " (");
            append_str(&mut out, code.as_str());
            append_str(&mut out, ")");
            proof {
                assert(out@ =~= message + (" ("@ + code@ + ")"@));
            }
        },
        None => {
            proof {
                assert(out@ =~= message + Seq::empty());
            }
        },
    }
    string(out.as_slice())
}

fn list_lines(diagnostics: &Vec<Diagnostic>, line: usize, width: usize) -> (r: Vec<(String, bool)>)
    requires
        width >= 2,
    ensures
        r.deep_view() == told_lines(diagnostics@, line, width as int, diagnostics@.len()),
{
    let mut out: Vec<(String, bool)> = Vec::new();
    let mut n: usize = 0;
    proof {
        assert(out.deep_view() =~= Seq::empty());
    }
    while n < diagnostics.len()
        invariant
            n <= diagnostics@.len(),
            width >= 2,
            out.deep_view() == told_lines(diagnostics@, line, width as int, n as nat),
        decreases diagnostics@.len() - n,
    {
        let diagnostic: &Diagnostic = &diagnostics[n];
        if tells(diagnostic, line) {
            let error: bool = match diagnostic.severity {
                Some(Severity::Error) => true,
                _ => false,
            };
            let text: String = say(diagnostic);
            let lines: Vec<String> = wrap_to_width(text.as_str(), width);
            let ghost want = all_of(lines.deep_view(), error);
            let ghost before = out.deep_view();
            let mut k: usize = 0;
            proof {
                assert(before + want.take(0) =~= before);
            }
            while k < lines.len()
                invariant
                    k <= lines@.len(),
                    want == all_of(lines.deep_view(), error),
                    out.deep_view() == before + want.take(k as int),
                decreases lines@.len() - k,
            {
                let ghost so_far = out.deep_view();
                let letters: Vec<char> = chars(lines[k].as_str());
                let copy: String = string(letters.as_slice());
                out.push((copy, error));
                k = k + 1;
                proof {
                    assert(want[k - 1] == (copy@, error));
                    assert(out.deep_view() =~= so_far.push((copy@, error)));
                    assert(out.deep_view() =~= before + want.take(k as int));
                }
            }
            proof {
                assert(want.take(k as int) =~= want);
            }
        }
        n = n + 1;
    }
    out
}

fn has_any(diagnostics: &Vec<Diagnostic>, line: usize) -> (r: bool)
    ensures
        r == any_told(diagnostics@, line, diagnostics@.len()),
{
    let mut n: usize = 0;
    while n < diagnostics.len()
        invariant
            n <= diagnostics@.len(),
            forall|i: int| 0 <= i < n ==> !told_on(#[trigger] diagnostics@[i], line),
        decreases diagnostics@.len() - n,
    {
        if tells(&diagnostics[n], line) {
            return true;
        }
        n = n + 1;
    }
    false
}

fn clip(lines: &mut Vec<(String, bool)>, rows: usize)
    requires
        rows < old(lines)@.len() ==> rows > 0,
    ensures
        final(lines).deep_view() == clipped(old(lines).deep_view(), rows as int),
{
    let ghost before = lines.deep_view();
    if lines.len() <= rows {
        return ;
    }
    while lines.len() > rows
        invariant
            rows <= lines@.len() <= before.len(),
            lines.deep_view() == before.take(lines@.len() as int),
        decreases lines@.len(),
    {
        let ghost len = lines@.len() as int;
        let dropped: Option<(String, bool)> = lines.pop();
        proof {
            assert(lines.deep_view() =~= before.take(len - 1));
        }
    }
    proof {
        assert(lines.deep_view() == before.take(rows as int));
    }
    if let Some((text, error)) = lines.pop() {
        proof {
            assert((text@, error) == before.take(rows as int).last());
            assert(lines.deep_view() =~= before.take(rows as int).drop_last());
        }
        let ghost kept = lines.deep_view();
        let mut letters: Vec<char> = chars(text.as_str());
        append_str(&mut letters, "\u{2026}");
        let last: String = string(letters.as_slice());
        lines.push((last, error));
        proof {
            assert(lines.deep_view() =~= kept.push((last@, error)));
        }
    }
}

fn widest_line(lines: &Vec<(String, bool)>) -> (r: usize)
    ensures
        r == widest(lines.deep_view(), lines@.len()),
{
    let ghost all = lines.deep_view();
    let mut width: usize = 0;
    let mut n: usize = 0;
    while n < lines.len()
        invariant
            n <= lines@.len(),
            all == lines.deep_view(),
            width == widest(all, n as nat),
        decreases lines@.len() - n,
    {
        proof {
            assert(all[n as int] == lines@[n as int].deep_view());
        }
        let own: usize = text_width(lines[n].0.as_str());
        if own > width {
            width = own;
        }
        n = n + 1;
    }
    width
}

/// What is wrong with the line the caret is on, in a box floating over the code under it, or
/// over the code above it when there is no room below. `position` is where the caret is on
/// screen, by row and column of the viewport, where it is on screen at all.
#[verifier::rlimit(30)]
pub fn diagnostics_box(
    diagnostics: &Vec<Diagnostic>,
    cursor_line: usize,
    position: Option<(u16, u16)>,
    viewport: Rect,
) -> (r: Option<DiagnosticsBox>)
    requires
        viewport.fits(),
    ensures
        ({
            let shown = viewport.width >= 16 && viewport.height >= 4 && any_told(
                diagnostics@,
                cursor_line,
                diagnostics@.len(),
            );
            match position {
                Some((row, column)) => if shown && max(
                    rows_under(viewport, row),
                    rows_over(viewport, row),
                ) >= 3 {
                    let all = told_lines(
                        diagnostics@,
                        cursor_line,
                        content_width(viewport),
                        diagnostics@.len(),
                    );
                    let height = box_height(viewport, row, all.len() as int);
                    let lines = clipped(all, height - 2);
                    let width = capped_cell(widest(lines, lines.len()) + 4);
                    &&& r is Some
                    &&& (r->0).lines.deep_view() == lines
                    &&& (r->0).area == box_area(viewport, row, column, width, height)
                } else {
                    r is None
                },
                None => r is None,
            }
        }),
{
    if viewport.width < 16 || viewport.height < 4 || !has_any(diagnostics, cursor_line) {
        return None;
    }
    let (row, column): (u16, u16) = match position {
        Some(position) => position,
        None => {
            return None;
        },
    };
    let room: u16 = viewport.width - 2;
    let room: u16 = if room < BOX_WIDTH {
        room
    } else {
        BOX_WIDTH
    };
    let mut lines: Vec<(String, bool)> = list_lines(
        diagnostics,
        cursor_line,
        (room - 4) as usize,
    );
    let ghost all = lines.deep_view();
    let caret: u16 = viewport.y.saturating_add(row);
    let under: u16 = viewport.bottom().saturating_sub(caret.saturating_add(1));
    let over: u16 = caret.saturating_sub(viewport.y);
    let most: u16 = if under > over {
        under
    } else {
        over
    };
    if most < 3 {
        return None;
    }
    let wanted: u16 = if lines.len() < BOX_LINES {
        lines.len() as u16 + 2
    } else {
        BOX_LINES as u16 + 2
    };
    let height: u16 = if wanted < most {
        wanted
    } else {
        most
    };
    proof {
        assert(lines@.len() == all.len());
        assert(height == box_height(viewport, row, all.len() as int));
    }
    clip(&mut lines, (height - 2) as usize);
    let widest: usize = widest_line(&lines);
    let width: u16 = if widest > 65531 {
        65535
    } else {
        widest as u16 + 4
    };
    let y: u16 = if height <= under {
        caret.saturating_add(1)
    } else {
        caret - height
    };
    let x: u16 = viewport.x.saturating_add(column);
    let right: u16 = viewport.right().saturating_sub(width);
    let x: u16 = if x < right {
        x
    } else {
        right
    };
    let area: Rect = viewport.intersection(Rect::new(x, y, width, height));
    proof {
        assert(lines@.len() == lines.deep_view().len());
    }
    Some(DiagnosticsBox { area, lines })
}

// ---------------------------------------------------------------------------------------
// Under the pointer
// ---------------------------------------------------------------------------------------

/// The first diagnostic from `k` on that stands at a place, by number; or the end.
pub open spec fn standing_at(diagnostics: Seq<Diagnostic>, at: usize, k: int) -> int
    decreases diagnostics.len() - k,
{
    if k >= diagnostics.len() {
        diagnostics.len() as int
    } else if diagnostics[k].range.0 <= at < diagnostics[k].range.1 {
        k
    } else {
        standing_at(diagnostics, at, k + 1)
    }
}

/// What is told of the diagnostic at a place: who says it, and what.
pub fn diagnostic_at(diagnostics: &Vec<Diagnostic>, at: usize) -> (r: Option<(String, String)>)
    ensures
        ({
            let k = standing_at(diagnostics@, at, 0);
            if k < diagnostics@.len() {
                &&& r is Some
                &&& (r->0).0@ == match diagnostics@[k].source {
                    Some(source) => source@,
                    None => "diagnostic"@,
                }
                &&& (r->0).1@ == diagnostics@[k].message@
            } else {
                r is None
            }
        }),
{
    let mut k: usize = 0;
    while k < diagnostics.len()
        invariant
            k <= diagnostics@.len(),
            standing_at(diagnostics@, at, 0) == standing_at(diagnostics@, at, k as int),
        decreases diagnostics@.len() - k,
    {
        if diagnostics[k].range.0 <= at && at < diagnostics[k].range.1 {
            let source: String = match &diagnostics[k].source {
                Some(source) => source.clone(),
                None => "diagnostic".to_string(),
            };
            return Some((source, diagnostics[k].message.clone()));
        }
        k = k + 1;
    }
    None
}

// ---------------------------------------------------------------------------------------
// Laws
// ---------------------------------------------------------------------------------------

/// The line the caret is on is never covered by the box, and the box stays in the viewport.
pub proof fn the_caret_stays_in_sight(
    viewport: Rect,
    row: u16,
    column: u16,
    width: u16,
    lines: int,
)
    requires
        viewport.fits(),
        lines >= 0,
        max(rows_under(viewport, row), rows_over(viewport, row)) >= 3,
    ensures
        ({
            let height = box_height(viewport, row, lines);
            let area = box_area(viewport, row, column, width, height);
            &&& !(area.y <= caret_row(viewport, row) < area.y + area.height)
            &&& area.width > 0 && area.height > 0 ==> viewport.covers(area)
        }),
{
}

} // verus!
