//! Where the lines of laid out XML stand: each as far in as elements are open around it.

use crate::format::pieces::cut_out;
use crate::format::settled::{lemma_cut, well_cut};
use crate::format::xml::{after_piece, breaks, broken_from, clear, closes_at, cut, joined,
    lemma_closes, lemma_markup, lemma_over_blanks, lemma_past_blanks, lemma_settled, lemma_short,
    lemma_step, lemma_text_is_kept, lines_from, marked, markup, opened_at, past_blanks, preserves,
    reason, short, sound, weighed, weighed_from, with_line, xml_outcome, Look, Opened, Part, Span};
use crate::format::Kept;
use crate::text::{blank, repeated};
use vstd::prelude::*;

verus! {

/// How many elements are open before piece `i`: those opened so far less those closed.
pub open spec fn open_around(parts: Seq<Part>, i: int) -> int
    decreases i,
{
    if i <= 0 {
        0
    } else {
        open_around(parts, i - 1) + match parts[i - 1] {
            Part::Open { .. } => 1int,
            Part::Close { .. } => -1,
            _ => 0,
        }
    }
}

/// How many elements a piece stands in. A closing tag stands where its opening tag does,
/// outside the element it closes.
pub open spec fn levels(parts: Seq<Part>, i: int) -> int {
    if parts[i] is Close {
        open_around(parts, i) - 1
    } else {
        open_around(parts, i)
    }
}

/// Whether the piece at `j` closes the element that the piece at `i` opens: from the one to
/// the other as many are closed as opened, and not before.
pub open spec fn closes(parts: Seq<Part>, i: int, j: int) -> bool {
    &&& 0 <= i < j < parts.len()
    &&& parts[i] is Open
    &&& parts[j] is Close
    &&& open_around(parts, j + 1) == open_around(parts, i)
    &&& forall|k: int| i < k <= j ==> #[trigger] open_around(parts, k) > open_around(parts, i)
}

/// Whether piece `k`, somewhere in the element that piece `i` opens, is in no other element in
/// between.
pub open spec fn directly(parts: Seq<Part>, i: int, k: int) -> bool {
    open_around(parts, k) == open_around(parts, i) + 1
}

/// Text directly in the element that piece `i` opens.
pub open spec fn words_at(parts: Seq<Part>, i: int, k: int) -> bool {
    directly(parts, i, k) && parts[k] is Text && !blank(parts[k].text())
}

/// White space on one line directly in the element that piece `i` opens.
pub open spec fn spaces_at(parts: Seq<Part>, i: int, k: int) -> bool {
    directly(parts, i, k) && parts[k] is Text && blank(parts[k].text()) && !breaks(
        parts[k].text(),
    )
}

/// An element, a comment or a declaration directly in the element that piece `i` opens.
pub open spec fn child_at(parts: Seq<Part>, i: int, k: int) -> bool {
    directly(parts, i, k) && (parts[k] is Open || (parts[k] is Whole && !parts[k].is_cdata()))
}

/// Whether the element from piece `i` to piece `j` is to stay as it was written: it says so, it
/// holds text, or it holds spaces and nothing to be put on lines of its own.
pub open spec fn is_content(parts: Seq<Part>, i: int, j: int) -> bool {
    ||| preserves(parts[i].text())
    ||| exists|k: int| i < k < j && #[trigger] words_at(parts, i, k)
    ||| (exists|k: int| i < k < j && #[trigger] spaces_at(parts, i, k)) && forall|k: int|
        i < k < j ==> !#[trigger] child_at(parts, i, k)
}

/// Nothing but white space between tags.
pub open spec fn only_blanks(parts: Seq<Part>, from: int, to: int) -> bool {
    forall|j: int| from <= j < to ==> (#[trigger] parts[j]).is_blank()
}

/// Whether the element from piece `i` to piece `j` holds nothing, or one CDATA section on one
/// line.
pub open spec fn holds_little(parts: Seq<Part>, i: int, j: int) -> bool {
    exists|c: int|
        #![trigger only_blanks(parts, i + 1, c)]
        i < c <= j && (c == j || (parts[c].is_cdata() && !breaks(parts[c].text())))
            && only_blanks(parts, i + 1, c) && only_blanks(parts, c + 1, j)
}

/// A line of what is laid out: the pieces on it, from the first to the last, whether they are
/// on it as they were written, and what the line says.
#[verifier::ext_equal]
pub struct Line {
    pub first: int,
    pub last: int,
    pub as_written: bool,
    pub content: Seq<char>,
}

/// The texts of `n` pieces from `i` on, the white space between tags left out.
pub open spec fn unspaced(parts: Seq<Part>, i: int, n: nat) -> Seq<char>
    decreases n,
{
    if n == 0 {
        Seq::empty()
    } else {
        unspaced(parts, i, (n - 1) as nat) + (if parts[i + n - 1].is_blank() {
            Seq::empty()
        } else {
            parts[i + n - 1].text()
        })
    }
}

/// Whether a line says what its pieces say. One that is as written is a whole element that is
/// to stay so. Any other is one piece, or an element from its opening tag to its closing one
/// with nothing but CDATA inside, which is never parted; no text stands on it, and the element
/// is none that is to stay as it was written.
pub open spec fn says_its_pieces(parts: Seq<Part>, line: Line) -> bool {
    let n = (line.last - line.first + 1) as nat;
    &&& 0 <= line.first <= line.last < parts.len()
    &&& !(parts[line.first] is Text)
    &&& line.as_written ==> line.content == joined(parts, line.first, n) && closes(
        parts,
        line.first,
        line.last,
    ) && is_content(parts, line.first, line.last)
    &&& !line.as_written ==> {
        &&& line.content == unspaced(parts, line.first, n)
        &&& forall|j: int|
            line.first <= j <= line.last ==> !((#[trigger] parts[j]) is Text) || parts[j].is_blank()
        &&& line.first < line.last ==> parts[line.first] is Open && parts[line.last] is Close
        &&& forall|j: int|
            line.first < j < line.last ==> (#[trigger] parts[j]).is_blank() || parts[j].is_cdata()
        &&& forall|j: int|
            #[trigger] closes(parts, line.first, j) ==> !is_content(parts, line.first, j) && (
            line.first == line.last ==> !holds_little(parts, line.first, j))
    }
}

/// The piece behind the first `n` lines.
pub open spec fn behind(lines: Seq<Line>, n: int) -> int {
    if n == 0 {
        0
    } else {
        lines[n - 1].last + 1
    }
}

/// Whether a line says what its pieces say, with nothing but white space between it and the
/// line above it.
pub open spec fn in_place(parts: Seq<Part>, lines: Seq<Line>, k: int) -> bool {
    &&& says_its_pieces(parts, lines[k])
    &&& behind(lines, k) <= lines[k].first
    &&& only_blanks(parts, behind(lines, k), lines[k].first)
}

/// Whether the lines are all there is before piece `i`: in order, and with nothing but white
/// space between them.
pub open spec fn cover(parts: Seq<Part>, lines: Seq<Line>, i: int) -> bool {
    &&& behind(lines, lines.len() as int) <= i
    &&& only_blanks(parts, behind(lines, lines.len() as int), i)
    &&& forall|k: int| 0 <= k < lines.len() ==> #[trigger] in_place(parts, lines, k)
}

/// The first `n` lines one under the other, each behind one `indent` for every element open
/// around it, and with its line breaks as the document's.
pub open spec fn written(parts: Seq<Part>, lines: Seq<Line>, n: nat, look: Look) -> Seq<char>
    decreases n,
{
    if n == 0 {
        Seq::empty()
    } else {
        let line = lines[n - 1];
        written(parts, lines, (n - 1) as nat, look) + (if n == 1 {
            Seq::empty()
        } else {
            look.newline
        }) + repeated(look.indent, levels(parts, line.first) as nat) + broken_from(
            line.content,
            0,
            look.newline,
        )
    }
}

/// Why each of the first `n` lines that are as written is: its element says so, or else what
/// is in it is content.
pub open spec fn told_kept(parts: Seq<Part>, lines: Seq<Line>, n: nat) -> Seq<Kept>
    decreases n,
{
    if n == 0 {
        Seq::empty()
    } else if !lines[n - 1].as_written {
        told_kept(parts, lines, (n - 1) as nat)
    } else {
        told_kept(parts, lines, (n - 1) as nat).push(
            if preserves(parts[lines[n - 1].first].text()) {
                Kept::XmlSpace
            } else {
                Kept::CharacterData
            },
        )
    }
}

// ---------------------------------------------------------------------------------------
// Counting
// ---------------------------------------------------------------------------------------

proof fn lemma_around_closed(parts: Seq<Part>, k: int, levels: int)
    requires
        0 <= k,
        closes_at(parts, k, levels) < parts.len(),
        levels >= 1,
    ensures
        k <= closes_at(parts, k, levels),
        open_around(parts, closes_at(parts, k, levels) + 1) == open_around(parts, k) - levels,
    decreases parts.len() - k,
{
    if k < parts.len() {
        match parts[k] {
            Part::Open { .. } => lemma_around_closed(parts, k + 1, levels + 1),
            Part::Close { .. } => {
                if levels > 1 {
                    lemma_around_closed(parts, k + 1, levels - 1);
                }
            },
            _ => lemma_around_closed(parts, k + 1, levels),
        }
    }
}

proof fn lemma_around_inner(parts: Seq<Part>, k: int, end: int)
    requires
        0 <= k <= end <= parts.len(),
        forall|j: int| k <= j < end ==> (#[trigger] parts[j]).is_blank() || parts[j].is_cdata(),
    ensures
        open_around(parts, end) == open_around(parts, k),
    decreases end - k,
{
    if k < end {
        lemma_around_inner(parts, k, end - 1);
        assert(parts[end - 1].is_blank() || parts[end - 1].is_cdata());
    }
}

proof fn lemma_begins(parts: Seq<Part>, i: int)
    requires
        well_cut(parts),
        0 <= i < parts.len(),
        !(parts[i] is Text),
    ensures
        parts[i].text().len() > 0,
        parts[i].text()[0] == '<',
{
    assert(cut_out(parts[i]));
    let s = choose|s: Seq<char>|
        s.len() > 0 && s[0] == '<' && #[trigger] markup(s) == Ok::<(Part, int), Seq<char>>(
            (parts[i], parts[i].text().len() as int),
        );
    lemma_markup(s);
    assert(parts[i].text()[0] == s[0]);
}

proof fn lemma_joined_begins(parts: Seq<Part>, i: int, n: nat)
    requires
        n > 0,
        parts[i].text().len() > 0,
    ensures
        joined(parts, i, n).len() > 0,
        joined(parts, i, n)[0] == parts[i].text()[0],
    decreases n,
{
    if n > 1 {
        lemma_joined_begins(parts, i, (n - 1) as nat);
    } else {
        assert(joined(parts, i, 0) + parts[i].text() =~= parts[i].text());
        assert(joined(parts, i, 1) == joined(parts, i, 0) + parts[i + 1 - 1].text());
    }
}

proof fn lemma_unspaced_begins(parts: Seq<Part>, i: int, n: nat)
    requires
        n > 0,
        !(parts[i] is Text),
        parts[i].text().len() > 0,
    ensures
        unspaced(parts, i, n).len() > 0,
        unspaced(parts, i, n)[0] == parts[i].text()[0],
    decreases n,
{
    if n > 1 {
        lemma_unspaced_begins(parts, i, (n - 1) as nat);
    } else {
        assert(unspaced(parts, i, 0) + parts[i].text() =~= parts[i].text());
        assert(unspaced(parts, i, 1) == unspaced(parts, i, 0) + parts[i + 1 - 1].text());
    }
}

proof fn lemma_unspaced_one(parts: Seq<Part>, i: int)
    requires
        !(parts[i] is Text),
    ensures
        unspaced(parts, i, 1) == parts[i].text(),
{
    reveal_with_fuel(unspaced, 2);
    assert(unspaced(parts, i, 1) =~= parts[i].text());
}

proof fn lemma_unspaced_blanks(parts: Seq<Part>, i: int, n: nat, more: nat)
    requires
        forall|j: int| i + n <= j < i + n + more ==> (#[trigger] parts[j]).is_blank(),
    ensures
        unspaced(parts, i, n + more) == unspaced(parts, i, n),
    decreases more,
{
    if more > 0 {
        lemma_unspaced_blanks(parts, i, n, (more - 1) as nat);
        assert(parts[i + (n + more) - 1].is_blank());
        assert(unspaced(parts, i, n + more) =~= unspaced(parts, i, n));
    }
}

/// An element on one line says its tags and what is between them, white space left out.
proof fn lemma_unspaced_short(parts: Seq<Part>, i: int)
    requires
        0 <= i < parts.len(),
        parts[i] is Open,
        short(parts, i) is Some,
    ensures
        ({
            let (inner, end) = short(parts, i)->0;
            &&& i < end < parts.len()
            &&& parts[end] is Close
            &&& unspaced(parts, i, (end - i + 1) as nat) == parts[i].text() + inner
                + parts[end].text()
            &&& forall|j: int|
                i < j < end ==> (#[trigger] parts[j]).is_blank() || parts[j].is_cdata()
        }),
{
    let (inner, end) = short(parts, i)->0;
    let a = past_blanks(parts, i + 1);
    lemma_past_blanks(parts, i + 1);
    lemma_past_blanks(parts, a + 1);
    lemma_short(parts, i);
    lemma_unspaced_one(parts, i);
    lemma_unspaced_blanks(parts, i, 1, (a - i - 1) as nat);
    assert(unspaced(parts, i, (a - i) as nat) == parts[i].text());
    if a != end {
        assert(parts[a].is_cdata());
        assert(unspaced(parts, i, (a - i + 1) as nat) == parts[i].text() + inner);
        lemma_unspaced_blanks(parts, i, (a - i + 1) as nat, (end - a - 1) as nat);
        assert(unspaced(parts, i, (end - i) as nat) == parts[i].text() + inner);
    } else {
        assert(parts[i].text() + inner =~= parts[i].text());
    }
    assert(unspaced(parts, i, (end - i + 1) as nat) == unspaced(parts, i, (end - i) as nat)
        + parts[end].text());
}

proof fn lemma_blanks_end(parts: Seq<Part>, i: int, end: int)
    requires
        0 <= i <= end < parts.len(),
        only_blanks(parts, i, end),
        !parts[end].is_blank(),
    ensures
        past_blanks(parts, i) == end,
    decreases end - i,
{
    if i < end {
        assert(parts[i].is_blank());
        lemma_blanks_end(parts, i + 1, end);
    }
}

/// What holds nothing, or one CDATA section, is put on one line.
proof fn lemma_not_little(parts: Seq<Part>, i: int, j: int)
    requires
        0 <= i < j < parts.len(),
        parts[i] is Open,
        parts[j] is Close,
        parts[j]->Close_name == parts[i]->Open_name,
        short(parts, i) is None,
    ensures
        !holds_little(parts, i, j),
{
    if holds_little(parts, i, j) {
        let c = choose|c: int|
            #![trigger only_blanks(parts, i + 1, c)]
            i < c <= j && (c == j || (parts[c].is_cdata() && !breaks(parts[c].text())))
                && only_blanks(parts, i + 1, c) && only_blanks(parts, c + 1, j);
        lemma_blanks_end(parts, i + 1, c);
        if c < j {
            lemma_blanks_end(parts, c + 1, j);
        }
    }
}

/// The same lines with one more behind them.
proof fn lemma_written_push(parts: Seq<Part>, lines: Seq<Line>, line: Line, n: nat, look: Look)
    requires
        n <= lines.len(),
    ensures
        written(parts, lines.push(line), n, look) == written(parts, lines, n, look),
    decreases n,
{
    if n > 0 {
        lemma_written_push(parts, lines, line, (n - 1) as nat, look);
        assert(lines.push(line)[n - 1] == lines[n - 1]);
    }
}

proof fn lemma_told_push(parts: Seq<Part>, lines: Seq<Line>, line: Line, n: nat)
    requires
        n <= lines.len(),
    ensures
        told_kept(parts, lines.push(line), n) == told_kept(parts, lines, n),
    decreases n,
{
    if n > 0 {
        lemma_told_push(parts, lines, line, (n - 1) as nat);
        assert(lines.push(line)[n - 1] == lines[n - 1]);
    }
}

proof fn lemma_not_empty(parts: Seq<Part>, lines: Seq<Line>, look: Look)
    requires
        lines.len() > 0,
        lines.last().content.len() > 0,
        lines.last().content[0] == '<',
    ensures
        written(parts, lines, lines.len(), look).len() > 0,
{
    let content = lines.last().content;
    assert(broken_from(content, 0, look.newline).len() > 0);
}

/// One more line.
proof fn lemma_one_more(
    parts: Seq<Part>,
    lines: Seq<Line>,
    line: Line,
    i: int,
    depth: nat,
    out: Seq<char>,
    look: Look,
)
    requires
        well_cut(parts),
        cover(parts, lines, i),
        out == written(parts, lines, lines.len(), look),
        lines.len() > 0 ==> out.len() > 0,
        line.first == i,
        says_its_pieces(parts, line),
        depth == levels(parts, i),
    ensures
        cover(parts, lines.push(line), line.last + 1),
        with_line(out, depth, line.content, look) == written(
            parts,
            lines.push(line),
            lines.push(line).len(),
            look,
        ),
        with_line(out, depth, line.content, look).len() > 0,
        told_kept(parts, lines.push(line), lines.push(line).len()) == if !line.as_written {
            told_kept(parts, lines, lines.len())
        } else {
            told_kept(parts, lines, lines.len()).push(
                if preserves(parts[i].text()) {
                    Kept::XmlSpace
                } else {
                    Kept::CharacterData
                },
            )
        },
{
    let more = lines.push(line);
    lemma_written_push(parts, lines, line, lines.len(), look);
    lemma_told_push(parts, lines, line, lines.len());
    assert(more.last() == line);
    lemma_begins(parts, i);
    let n = (line.last - line.first + 1) as nat;
    lemma_joined_begins(parts, i, n);
    lemma_unspaced_begins(parts, i, n);
    lemma_not_empty(parts, more, look);
    if lines.len() == 0 {
        assert(out =~= Seq::empty());
    }
    assert(with_line(out, depth, line.content, look) =~= written(parts, more, more.len(), look));
    assert forall|k: int| 0 <= k < more.len() implies #[trigger] in_place(parts, more, k) by {
        if k > 0 {
            assert(more[k - 1] == lines[k - 1]);
        }
        if k < lines.len() {
            assert(in_place(parts, lines, k));
            assert(more[k] == lines[k]);
        }
    }
}

// ---------------------------------------------------------------------------------------
// The lines
// ---------------------------------------------------------------------------------------

/// What is seen of an open element is what stands directly in it.
proof fn lemma_followed(
    parts: Seq<Part>,
    k: int,
    open: Seq<Opened>,
    spans: Seq<Span>,
    a: int,
    i: int,
) -> (j: int)
    requires
        sound(parts, k, open, spans),
        weighed_from(parts, k, open, spans) is Ok,
        0 <= a < open.len(),
        open[a].start == i,
        0 <= i < k,
        parts[i] is Open,
        open[a].name == parts[i]->Open_name,
        spans[i] is None,
        open.len() == open_around(parts, k),
        open_around(parts, i) == a,
        forall|m: int| i < m <= k ==> #[trigger] open_around(parts, m) > a,
        open[a].space == preserves(parts[i].text()),
        open[a].text == exists|m: int| i < m < k && #[trigger] words_at(parts, i, m),
        open[a].spaces == exists|m: int| i < m < k && #[trigger] spaces_at(parts, i, m),
        open[a].markup == exists|m: int| i < m < k && #[trigger] child_at(parts, i, m),
    ensures
        closes(parts, i, j),
        parts[j]->Close_name == parts[i]->Open_name,
        ({
            let last = weighed_from(parts, k, open, spans)->Ok_0;
            &&& last[i] is Some <==> is_content(parts, i, j)
            &&& last[i] matches Some((more, why)) ==> more == j - i && (why == Kept::XmlSpace
                <==> preserves(parts[i].text()))
        }),
    decreases parts.len() - k,
{
    if k >= parts.len() {
        k
    } else {
        lemma_step(parts, k, open, spans);
        let (open2, spans2) = after_piece(parts, k, open, spans);
        let (words, spaces, child) = (
            words_at(parts, i, k),
            spaces_at(parts, i, k),
            child_at(parts, i, k),
        );
        if parts[k] is Close && a == open.len() - 1 {
            assert(!words && !spaces && !child);
            assert forall|b: int| 0 <= b < open2.len() implies (#[trigger] open2[b]).start != i by {
                assert(open[b].start < open[a].start);
            }
            lemma_settled(parts, k + 1, open2, spans2, i);
            assert(open.last() == open[a]);
            assert(open_around(parts, k + 1) == a);
            assert(is_content(parts, i, k) == (reason(open[a]) is Some));
            k
        } else {
            assert(open2.len() == open_around(parts, k + 1));
            assert(open2[a].start == i);
            assert(spans2[i] is None) by {
                if parts[k] is Close {
                    assert(open[open.len() - 1].start != i);
                }
            }
            assert(directly(parts, i, k) == (a == open.len() - 1));
            assert(open2[a].text == (open[a].text || words));
            assert(open2[a].spaces == (open[a].spaces || spaces));
            assert(open2[a].markup == (open[a].markup || child));
            assert forall|m: int| i < m <= k + 1 implies #[trigger] open_around(parts, m) > a by {
                if m <= k {
                    assert(open_around(parts, m) > a);
                }
            }
            lemma_followed(parts, k + 1, open2, spans2, a, i)
        }
    }
}

/// An element is closed once.
proof fn lemma_closed_once(parts: Seq<Part>, i: int, j: int, m: int)
    requires
        closes(parts, i, j),
        closes(parts, i, m),
    ensures
        j == m,
{
    assert(open_around(parts, j + 1) == open_around(parts, i));
    assert(open_around(parts, m + 1) == open_around(parts, i));
    if j < m {
        assert(open_around(parts, j + 1) > open_around(parts, i));
    }
    if m < j {
        assert(open_around(parts, m + 1) > open_around(parts, i));
    }
}

/// Where the layout stands before a piece: the elements open around it, and the lines so far.
#[verifier::ext_equal]
struct Stand {
    pub i: int,
    pub out: Seq<char>,
    pub kept: Seq<Kept>,
    pub open: Seq<Opened>,
    pub spans: Seq<Span>,
    pub lines: Seq<Line>,
}

impl Stand {
    /// The elements that are kept in the end.
    spec fn last(self, parts: Seq<Part>) -> Seq<Span> {
        weighed_from(parts, self.i, self.open, self.spans)->Ok_0
    }

    spec fn holds(self, parts: Seq<Part>, look: Look) -> bool {
        &&& well_cut(parts)
        &&& sound(parts, self.i, self.open, self.spans)
        &&& weighed_from(parts, self.i, self.open, self.spans) is Ok
        &&& clear(self.open, self.last(parts))
        &&& self.open.len() == open_around(parts, self.i)
        &&& cover(parts, self.lines, self.i)
        &&& self.out == written(parts, self.lines, self.lines.len(), look)
        &&& self.kept == told_kept(parts, self.lines, self.lines.len())
        &&& self.lines.len() > 0 ==> self.out.len() > 0
    }

    /// What comes out in the end, and what was kept.
    spec fn comes_out(self, parts: Seq<Part>, last: Seq<Span>, look: Look) -> (
        Seq<char>,
        Seq<Kept>,
    ) {
        lines_from(parts, last, self.i, self.open.len(), self.out, self.kept, look)
    }

    /// Further on in the same document, with the same to come out.
    spec fn leads_to(self, next: Stand, parts: Seq<Part>, look: Look) -> bool {
        &&& next.holds(parts, look)
        &&& next.i > self.i
        &&& next.last(parts) == self.last(parts)
        &&& next.comes_out(parts, self.last(parts), look) == self.comes_out(
            parts,
            self.last(parts),
            look,
        )
    }
}

/// An element is kept where it is to stay as it was written.
proof fn lemma_is_content(parts: Seq<Part>, at: Stand, look: Look) -> (j: int)
    requires
        at.holds(parts, look),
        at.i < parts.len(),
        parts[at.i] is Open,
    ensures
        closes(parts, at.i, j),
        parts[j]->Close_name == parts[at.i]->Open_name,
        at.last(parts)[at.i] is Some <==> is_content(parts, at.i, j),
        at.last(parts)[at.i] matches Some((more, why)) ==> more == j - at.i && (why
            == Kept::XmlSpace <==> preserves(parts[at.i].text())),
        forall|m: int| #[trigger] closes(parts, at.i, m) ==> m == j,
{
    let (i, open, spans) = (at.i, at.open, at.spans);
    lemma_step(parts, i, open, spans);
    let (open2, spans2) = after_piece(parts, i, open, spans);
    let n = open.len() as int;
    assert(open2[n].start == i);
    let j = lemma_followed(parts, i + 1, open2, spans2, n, i);
    assert forall|m: int| #[trigger] closes(parts, i, m) implies m == j by {
        lemma_closed_once(parts, i, j, m);
    }
    j
}

proof fn lemma_step_kept(parts: Seq<Part>, at: Stand, look: Look) -> (next: Stand)
    requires
        at.holds(parts, look),
        at.i < parts.len(),
        at.last(parts)[at.i] is Some,
        parts[at.i] is Open,
    ensures
        at.leads_to(next, parts, look),
{
    let (i, open, spans) = (at.i, at.open, at.spans);
    let last = at.last(parts);
    let depth = open.len();
    lemma_step(parts, i, open, spans);
    let (open2, spans2) = after_piece(parts, i, open, spans);
    let (more, why) = last[i]->0;
    let n = open.len() as int;
    assert(open2[n].start == i);
    let (m, spans3) = lemma_closes(parts, i + 1, open2, spans2, n);
    assert(more == m - i);
    let open3 = open2.subrange(0, n);
    assert(open3 =~= marked(open));
    assert forall|a: int| 0 <= a < open3.len() implies last[(#[trigger] open3[a]).start] is None by {
        assert(open3[a].start == open[a].start);
    }
    assert(open_around(parts, i + 1) == n + 1);
    lemma_around_closed(parts, i + 1, 1);
    let line = Line { first: i, last: m, as_written: true, content: joined(parts, i, more + 1) };
    assert((line.last - line.first + 1) as nat == more + 1);
    let closed = lemma_is_content(parts, at, look);
    assert(closed == m);
    assert(says_its_pieces(parts, line));
    lemma_one_more(parts, at.lines, line, i, depth, at.out, look);
    let next = Stand {
        i: m + 1,
        out: with_line(at.out, depth, line.content, look),
        kept: at.kept.push(why),
        open: open3,
        spans: spans3,
        lines: at.lines.push(line),
    };
    assert(next.last(parts) == last);
    assert(next.open.len() == open_around(parts, next.i));
    assert(next.holds(parts, look));
    assert(next.comes_out(parts, last, look) == at.comes_out(parts, last, look));
    next
}

proof fn lemma_step_short(parts: Seq<Part>, at: Stand, look: Look) -> (next: Stand)
    requires
        at.holds(parts, look),
        at.i < parts.len(),
        at.last(parts)[at.i] is None,
        parts[at.i] is Open,
        short(parts, at.i) is Some,
    ensures
        at.leads_to(next, parts, look),
{
    let (i, open, spans) = (at.i, at.open, at.spans);
    let last = at.last(parts);
    let depth = open.len();
    lemma_step(parts, i, open, spans);
    let (open2, spans2) = after_piece(parts, i, open, spans);
    let (inner, end) = short(parts, i)->0;
    lemma_unspaced_short(parts, i);
    let closed = lemma_is_content(parts, at, look);
    let open3 = lemma_over_blanks(parts, i + 1, end, open2, spans2);
    lemma_step(parts, end, open3, spans2);
    let (open4, spans4) = after_piece(parts, end, open3, spans2);
    assert(open4 =~= marked(open));
    assert forall|a: int| 0 <= a < open4.len() implies last[(#[trigger] open4[a]).start] is None by {
        assert(open4[a].start == open[a].start);
    }
    lemma_around_inner(parts, i + 1, end);
    let line = Line {
        first: i,
        last: end,
        as_written: false,
        content: parts[i].text() + inner + parts[end].text(),
    };
    assert forall|j: int| i <= j <= end implies !((#[trigger] parts[j]) is Text)
        || parts[j].is_blank() by {
        if i < j < end {
            assert(parts[j].is_blank() || parts[j].is_cdata());
        }
    }
    lemma_one_more(parts, at.lines, line, i, depth, at.out, look);
    Stand {
        i: end + 1,
        out: with_line(at.out, depth, line.content, look),
        kept: at.kept,
        open: open4,
        spans: spans4,
        lines: at.lines.push(line),
    }
}

/// Character data that is not kept is white space.
proof fn lemma_loose_is_blank(parts: Seq<Part>, at: Stand, look: Look)
    requires
        at.holds(parts, look),
        at.i < parts.len(),
        parts[at.i] is Text,
    ensures
        parts[at.i].is_blank(),
{
    let (i, open, spans) = (at.i, at.open, at.spans);
    lemma_step(parts, i, open, spans);
    let (open2, spans2) = after_piece(parts, i, open, spans);
    if !parts[i].is_blank() {
        lemma_text_is_kept(parts, i + 1, open2, spans2, open2.len() - 1);
        assert(open2.last().start == open[open.len() - 1].start);
        assert(false);
    }
}

proof fn lemma_cover_blank(parts: Seq<Part>, lines: Seq<Line>, i: int)
    requires
        cover(parts, lines, i),
        parts[i].is_blank(),
    ensures
        cover(parts, lines, i + 1),
{
}

proof fn lemma_step_blank(parts: Seq<Part>, at: Stand, look: Look) -> (next: Stand)
    requires
        at.holds(parts, look),
        at.i < parts.len(),
        at.last(parts)[at.i] is None,
        parts[at.i] is Text,
    ensures
        at.leads_to(next, parts, look),
{
    lemma_loose_is_blank(parts, at, look);
    lemma_step_open(parts, at, look);
    lemma_cover_blank(parts, at.lines, at.i);
    let (open2, spans2) = after_piece(parts, at.i, at.open, at.spans);
    let next = Stand { i: at.i + 1, open: open2, spans: spans2, ..at };
    assert(next.holds(parts, look));
    next
}

/// The elements open behind a piece, none of which is kept.
proof fn lemma_step_open(parts: Seq<Part>, at: Stand, look: Look)
    requires
        at.holds(parts, look),
        at.i < parts.len(),
        at.last(parts)[at.i] is None,
    ensures
        ({
            let (open2, spans2) = after_piece(parts, at.i, at.open, at.spans);
            &&& weighed_from(parts, at.i + 1, open2, spans2) == weighed_from(
                parts,
                at.i,
                at.open,
                at.spans,
            )
            &&& sound(parts, at.i + 1, open2, spans2)
            &&& clear(open2, at.last(parts))
            &&& open2.len() == open_around(parts, at.i + 1)
            &&& parts[at.i] is Close ==> at.open.len() > 0
        }),
{
    let (i, open, spans) = (at.i, at.open, at.spans);
    let last = at.last(parts);
    lemma_step(parts, i, open, spans);
    let (open2, spans2) = after_piece(parts, i, open, spans);
    assert forall|a: int| 0 <= a < open2.len() implies last[(#[trigger] open2[a]).start] is None by {
        if a < open.len() {
            assert(open2[a].start == open[a].start);
        }
    }
}

proof fn lemma_step_one(parts: Seq<Part>, at: Stand, look: Look) -> (next: Stand)
    requires
        at.holds(parts, look),
        at.i < parts.len(),
        at.last(parts)[at.i] is None,
        !(parts[at.i] is Text),
        parts[at.i] is Open ==> short(parts, at.i) is None,
    ensures
        at.leads_to(next, parts, look),
{
    let i = at.i;
    let last = at.last(parts);
    let depth = at.open.len();
    lemma_step_open(parts, at, look);
    let (open2, spans2) = after_piece(parts, i, at.open, at.spans);
    let line = Line { first: i, last: i, as_written: false, content: parts[i].text() };
    lemma_unspaced_one(parts, i);
    if parts[i] is Open {
        let closed = lemma_is_content(parts, at, look);
        lemma_not_little(parts, i, closed);
    }
    let in_by = if parts[i] is Close {
        (depth - 1) as nat
    } else {
        depth
    };
    assert(says_its_pieces(parts, line));
    lemma_one_more(parts, at.lines, line, i, in_by, at.out, look);
    let out = with_line(at.out, in_by, line.content, look);
    let next = Stand {
        i: i + 1,
        out,
        kept: at.kept,
        open: open2,
        spans: spans2,
        lines: at.lines.push(line),
    };
    assert(next.holds(parts, look));
    lemma_lines_one(parts, last, i, depth, at.out, at.kept, look);
    next
}

/// A piece on a line of its own, and what comes behind it.
proof fn lemma_lines_one(
    parts: Seq<Part>,
    last: Seq<Span>,
    i: int,
    depth: nat,
    out: Seq<char>,
    kept: Seq<Kept>,
    look: Look,
)
    requires
        0 <= i < parts.len(),
        last[i] is None,
        !(parts[i] is Text),
        parts[i] is Open ==> short(parts, i) is None,
        parts[i] is Close ==> depth > 0,
    ensures
        ({
            let (here, inner) = match parts[i] {
                Part::Open { .. } => (depth, depth + 1),
                Part::Close { .. } => ((depth - 1) as nat, (depth - 1) as nat),
                _ => (depth, depth),
            };
            lines_from(parts, last, i, depth, out, kept, look) == lines_from(
                parts,
                last,
                i + 1,
                inner,
                with_line(out, here, parts[i].text(), look),
                kept,
                look,
            )
        }),
{
    match parts[i] {
        Part::Open { .. } => {},
        Part::Close { .. } => {},
        Part::Whole(_) => {},
        Part::Text(_) => {},
    }
}

proof fn lemma_lines_stand(parts: Seq<Part>, at: Stand, look: Look) -> (r: Seq<Line>)
    requires
        at.holds(parts, look),
    ensures
        cover(parts, r, parts.len() as int),
        at.comes_out(parts, at.last(parts), look) == (
            written(parts, r, r.len(), look),
            told_kept(parts, r, r.len()),
        ),
    decreases parts.len() - at.i,
{
    if at.i >= parts.len() {
        at.lines
    } else {
        let (i, open, spans) = (at.i, at.open, at.spans);
        let last = at.last(parts);
        lemma_step(parts, i, open, spans);
        let (open2, spans2) = after_piece(parts, i, open, spans);
        assert(opened_at(open2, i) ==> parts[i] is Open);
        if !(parts[i] is Open) {
            lemma_settled(parts, i + 1, open2, spans2, i);
            if parts[i] is Close {
                assert(open[open.len() - 1].start < i);
            }
            assert(last[i] is None);
        }
        let next = if last[i] is Some {
            lemma_step_kept(parts, at, look)
        } else if parts[i] is Open && short(parts, i) is Some {
            lemma_step_short(parts, at, look)
        } else if parts[i] is Text {
            lemma_step_blank(parts, at, look)
        } else {
            lemma_step_one(parts, at, look)
        };
        lemma_lines_stand(parts, next, look)
    }
}

/// A document that is laid out is lines, each behind as many `indent`s as there are elements
/// open around it: the tags, comments and declarations in their order, each on a line of its
/// own, but for an element that holds nothing or one that is kept as it was written. Nothing
/// between them is left out but white space, and what was kept is told with its reason.
pub proof fn every_line_stands_at_its_depth(text: Seq<char>, look: Look) -> (lines: Seq<Line>)
    ensures
        xml_outcome(text, look) matches Ok((out, kept)) ==> (cut(text) matches Ok(parts) && cover(
            parts,
            lines,
            parts.len() as int,
        ) && out == written(parts, lines, lines.len(), look) + look.newline && kept == told_kept(
            parts,
            lines,
            lines.len(),
        )),
{
    if let Ok(parts) = cut(text) {
        if let Ok(last) = weighed(parts) {
            let spans = Seq::new(parts.len(), |i: int| None::<(nat, Kept)>);
            lemma_cut(text, Seq::empty());
            let at = Stand {
                i: 0,
                out: Seq::empty(),
                kept: Seq::empty(),
                open: Seq::empty(),
                spans,
                lines: Seq::empty(),
            };
            lemma_lines_stand(parts, at, look)
        } else {
            Seq::empty()
        }
    } else {
        Seq::empty()
    }
}

/// An opening tag and the closing tag that matches it stand on the same column, and what is
/// inside stands further in: what is inside no other element in between, one level.
pub proof fn tags_that_match_stand_on_one_column(parts: Seq<Part>, i: int, j: int, k: int)
    requires
        closes(parts, i, j),
        i < k < j,
    ensures
        levels(parts, i) == levels(parts, j),
        levels(parts, k) >= levels(parts, i) + 1,
        k == i + 1 ==> levels(parts, k) == levels(parts, i) + 1,
        open_around(parts, k) == open_around(parts, i) + 1 && !(parts[k] is Close) ==> levels(
            parts,
            k,
        ) == levels(parts, i) + 1,
{
    assert(open_around(parts, k) > open_around(parts, i));
    assert(open_around(parts, k + 1) > open_around(parts, i));
    assert(open_around(parts, i + 1) == open_around(parts, i) + 1);
}

/// The indentation of a level more is one `indent` more.
pub proof fn a_level_is_one_indent(indent: Seq<char>, n: nat)
    ensures
        repeated(indent, 0).len() == 0,
        repeated(indent, n + 1) == repeated(indent, n) + indent,
        repeated(indent, n).len() == n * indent.len(),
    decreases n,
{
    if n > 0 {
        a_level_is_one_indent(indent, (n - 1) as nat);
        assert(n * indent.len() == (n - 1) * indent.len() + indent.len()) by (nonlinear_arith)
            requires
                n > 0,
        ;
    } else {
        assert(0 * indent.len() == 0) by (nonlinear_arith);
    }
}

} // verus!
