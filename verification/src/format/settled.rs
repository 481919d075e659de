//! XML that has been laid out once stays as it is when it is laid out again.

use crate::format::breaks::{is_newline, lemma_both, lemma_contains, lemma_kept, lemma_newline,
    lemma_norm_again, lemma_split, norm};
use crate::format::pieces::{cut_out, lemma_blank_norm, lemma_preserves, lemma_reads_again, made,
    one_word, reads, rewritten};
use crate::format::xml::{after_piece, breaks, clear, closes_at, cut, cut_from, holding, joined,
    lemma_closes, lemma_markup, lemma_over_blanks, lemma_past_blanks, lemma_settled, lemma_short,
    lemma_step, lemma_tail_push, lemma_text_is_kept, lines_from, marked, markup, opened_at,
    past_blanks, preserves, reason, short, sound, tail, weighed, weighed_from, with_line,
    xml_outcome, Look, Opened, Part, Span};
use crate::format::Kept;
use crate::text::{blank, first, is_space, lemma_first, repeated};
use vstd::prelude::*;

verus! {

// ---------------------------------------------------------------------------------------
// What the pieces of a text are
// ---------------------------------------------------------------------------------------

/// Character data between tags: there is some, no tag is in it, and no more behind it.
pub open spec fn is_data(parts: Seq<Part>, k: int) -> bool {
    &&& parts[k].text().len() > 0
    &&& !parts[k].text().contains('<')
    &&& k + 1 < parts.len() ==> !(parts[k + 1] is Text)
}

/// The pieces a text is cut into.
pub open spec fn well_cut(parts: Seq<Part>) -> bool {
    forall|k: int|
        #![trigger parts[k]]
        0 <= k < parts.len() ==> if parts[k] is Text {
            is_data(parts, k)
        } else {
            cut_out(parts[k])
        }
}

/// The same, with every closing tag under a name that is one word.
pub open spec fn well_made(parts: Seq<Part>) -> bool {
    forall|k: int|
        #![trigger parts[k]]
        0 <= k < parts.len() ==> if parts[k] is Text {
            is_data(parts, k)
        } else {
            made(parts[k])
        }
}

/// Pieces that are read again from what they are written as.
pub open spec fn clean(parts: Seq<Part>) -> bool {
    forall|k: int|
        #![trigger parts[k]]
        0 <= k < parts.len() ==> if parts[k] is Text {
            is_data(parts, k)
        } else {
            reads(parts[k])
        }
}

/// The last piece is no character data.
pub open spec fn ends_in_tag(parts: Seq<Part>) -> bool {
    parts.len() > 0 ==> !(parts.last() is Text)
}

proof fn lemma_push_cut(done: Seq<Part>, part: Part)
    requires
        well_cut(done),
        if part is Text {
            ends_in_tag(done) && part.text().len() > 0 && !part.text().contains('<')
        } else {
            cut_out(part)
        },
    ensures
        well_cut(done.push(part)),
{
    let more = done.push(part);
    assert forall|k: int|
        #![trigger more[k]]
        0 <= k < more.len() implies if more[k] is Text {
        is_data(more, k)
    } else {
        cut_out(more[k])
    } by {
        if k < done.len() {
            assert(more[k] == done[k]);
            if k + 1 < done.len() {
                assert(more[k + 1] == done[k + 1]);
            }
        }
    }
}

pub proof fn lemma_cut(rest: Seq<char>, done: Seq<Part>)
    requires
        well_cut(done),
        ends_in_tag(done),
    ensures
        cut_from(rest, done) matches Ok(parts) ==> well_cut(parts),
    decreases rest.len(),
{
    lemma_first(rest, '<', 0);
    let lt = first(rest, '<', 0);
    if rest.len() == 0 {
    } else if lt == rest.len() {
        assert(!rest.contains('<'));
        lemma_push_cut(done, Part::Text(rest));
    } else {
        let text = rest.subrange(0, lt);
        let before = if lt > 0 {
            done.push(Part::Text(text))
        } else {
            done
        };
        if lt > 0 {
            if text.contains('<') {
                let k = choose|k: int| 0 <= k < text.len() && text[k] == '<';
                assert(rest[k] == '<');
            }
            lemma_push_cut(done, Part::Text(text));
        }
        let at = rest.subrange(lt, rest.len() as int);
        assert(at[0] == '<');
        lemma_markup(at);
        if let Ok((part, length)) = markup(at) {
            assert(part.text().len() == length);
            assert(cut_out(part));
            lemma_push_cut(before, part);
            lemma_cut(at.subrange(length, at.len() as int), before.push(part));
        }
    }
}

proof fn lemma_open_word(part: Part)
    requires
        part is Open,
        cut_out(part),
    ensures
        one_word(part->Open_name),
{
    lemma_newline(seq!['\n']);
    lemma_reads_again(part, seq!['\n']);
}

/// In a document that reads as one, every closing tag is under the name of an opening one.
proof fn lemma_names(parts: Seq<Part>, k: int, open: Seq<Opened>, spans: Seq<Span>, j: int)
    requires
        well_cut(parts),
        sound(parts, k, open, spans),
        weighed_from(parts, k, open, spans) is Ok,
        forall|a: int| 0 <= a < open.len() ==> one_word((#[trigger] open[a]).name),
        k <= j < parts.len(),
        parts[j] is Close,
    ensures
        one_word(parts[j]->Close_name),
    decreases parts.len() - k,
{
    lemma_step(parts, k, open, spans);
    let (open2, spans2) = after_piece(parts, k, open, spans);
    if k == j {
        assert(open.last().name == parts[j]->Close_name);
        assert(one_word(open[open.len() - 1].name));
    } else {
        if parts[k] is Open {
            assert(parts[k] is Open && cut_out(parts[k]));
            lemma_open_word(parts[k]);
        }
        assert forall|a: int| 0 <= a < open2.len() implies one_word((#[trigger] open2[a]).name) by {
            if a < open.len() {
                assert(open2[a].name == open[a].name);
                assert(one_word(open[a].name));
            }
        }
        lemma_names(parts, k + 1, open2, spans2, j);
    }
}

proof fn lemma_well_made(parts: Seq<Part>)
    requires
        well_cut(parts),
        weighed(parts) is Ok,
    ensures
        well_made(parts),
{
    let none = Seq::new(parts.len(), |i: int| None::<(nat, Kept)>);
    assert forall|k: int|
        #![trigger parts[k]]
        0 <= k < parts.len() implies if parts[k] is Text {
        is_data(parts, k)
    } else {
        made(parts[k])
    } by {
        if parts[k] is Close {
            lemma_names(parts, 0, Seq::empty(), none, k);
        }
    }
}

// ---------------------------------------------------------------------------------------
// Reading pieces again
// ---------------------------------------------------------------------------------------

/// A piece at the start of a text is read, and then what stands behind it.
proof fn lemma_read(part: Part, then: Seq<char>, done: Seq<Part>)
    requires
        reads(part),
    ensures
        cut_from(part.text() + then, done) == cut_from(then, done.push(part)),
{
    let rest = part.text() + then;
    let length = part.text().len() as int;
    assert(markup(part.text() + then) == Ok::<(Part, int), Seq<char>>((part, length)));
    assert(rest[0] == '<');
    lemma_first(rest, '<', 0);
    assert(first(rest, '<', 0) == 0);
    assert(rest.subrange(0, rest.len() as int) =~= rest);
    assert(rest.subrange(length, rest.len() as int) =~= then);
}

/// Character data in front of a tag is read, and then the tag.
proof fn lemma_read_data(data: Part, then: Seq<char>, done: Seq<Part>)
    requires
        data is Text,
        data.text().len() > 0,
        !data.text().contains('<'),
        then.len() > 0 ==> then[0] == '<',
    ensures
        cut_from(data.text() + then, done) == cut_from(then, done.push(data)),
{
    let text = data.text();
    let rest = text + then;
    lemma_first(rest, '<', 0);
    let lt = first(rest, '<', 0);
    if lt < text.len() {
        assert(text[lt] == '<');
        assert(text.contains('<'));
    }
    if then.len() == 0 {
        assert(rest =~= text);
    } else {
        assert(rest[text.len() as int] == '<');
        assert(lt == text.len());
        assert(rest.subrange(0, lt) =~= text);
        assert(rest.subrange(lt, rest.len() as int) =~= then);
        lemma_first(then, '<', 0);
        assert(first(then, '<', 0) == 0);
        assert(then.subrange(0, then.len() as int) =~= then);
    }
}

proof fn lemma_cut_clean(parts: Seq<Part>, k: int, done: Seq<Part>)
    requires
        clean(parts),
        0 <= k <= parts.len(),
    ensures
        cut_from(tail(parts, k), done) == Ok::<Seq<Part>, Seq<char>>(
            done + parts.subrange(k, parts.len() as int),
        ),
    decreases parts.len() - k,
{
    let whole = done + parts.subrange(k, parts.len() as int);
    if k == parts.len() {
        assert(whole =~= done);
    } else {
        let then = tail(parts, k + 1);
        if parts[k] is Text {
            assert(is_data(parts, k));
            if k + 1 < parts.len() {
                assert(reads(parts[k + 1]));
                assert(then == parts[k + 1].text() + tail(parts, k + 2));
                assert(then[0] == parts[k + 1].text()[0]);
            } else {
                assert(then.len() == 0);
            }
            lemma_read_data(parts[k], then, done);
        } else {
            assert(reads(parts[k]));
            lemma_read(parts[k], then, done);
        }
        lemma_cut_clean(parts, k + 1, done.push(parts[k]));
        assert(done.push(parts[k]) + parts.subrange(k + 1, parts.len() as int) =~= whole);
    }
}

// ---------------------------------------------------------------------------------------
// The pieces of what was laid out
// ---------------------------------------------------------------------------------------

/// The line break and the indentation in front of a line.
pub open spec fn lead_text(first_line: bool, depth: nat, look: Look) -> Seq<char> {
    (if first_line {
        Seq::empty()
    } else {
        look.newline
    }) + repeated(look.indent, depth)
}

/// The same as a piece, where there is any.
pub open spec fn lead(q: Seq<Part>, depth: nat, look: Look) -> Seq<Part> {
    let text = lead_text(q.len() == 0, depth, look);
    if text.len() == 0 {
        Seq::empty()
    } else {
        seq![Part::Text(text)]
    }
}

/// `n` pieces from `i` on, with their line breaks written another way.
pub open spec fn rewritten_all(parts: Seq<Part>, i: int, n: nat, look: Look) -> Seq<Part> {
    Seq::new(n, |k: int| rewritten(parts[i + k], look.newline))
}

/// What is inside an element on one line, as a piece where there is any.
pub open spec fn inner_part(inner: Seq<char>) -> Seq<Part> {
    if inner.len() > 0 {
        seq![Part::Whole(inner)]
    } else {
        Seq::empty()
    }
}

/// The pieces of the lines from piece `i` on, behind those there are.
pub open spec fn relaid(
    parts: Seq<Part>,
    spans: Seq<Span>,
    i: int,
    depth: nat,
    q: Seq<Part>,
    look: Look,
) -> Seq<Part>
    decreases
            if i < parts.len() {
                parts.len() - i
            } else {
                0
            },
    via relaid_advance
{
    if i >= parts.len() {
        q
    } else if let Some((more, why)) = spans[i] {
        relaid(
            parts,
            spans,
            i + more + 1,
            depth,
            q + lead(q, depth, look) + rewritten_all(parts, i, more + 1, look),
            look,
        )
    } else {
        let own = seq![rewritten(parts[i], look.newline)];
        match parts[i] {
            Part::Open { .. } => if let Some((inner, end)) = short(parts, i) {
                relaid(
                    parts,
                    spans,
                    end + 1,
                    depth,
                    q + lead(q, depth, look) + (own + inner_part(inner) + seq![
                        rewritten(parts[end], look.newline),
                    ]),
                    look,
                )
            } else {
                relaid(parts, spans, i + 1, depth + 1, q + lead(q, depth, look) + own, look)
            },
            Part::Close { .. } => {
                let outer = if depth == 0 {
                    0
                } else {
                    (depth - 1) as nat
                };
                relaid(parts, spans, i + 1, outer, q + lead(q, outer, look) + own, look)
            },
            Part::Whole(_) => relaid(
                parts,
                spans,
                i + 1,
                depth,
                q + lead(q, depth, look) + own,
                look,
            ),
            Part::Text(_) => relaid(parts, spans, i + 1, depth, q, look),
        }
    }
}

#[via_fn]
proof fn relaid_advance(
    parts: Seq<Part>,
    spans: Seq<Span>,
    i: int,
    depth: nat,
    q: Seq<Part>,
    look: Look,
) {
    lemma_short(parts, i);
}

/// What is laid out comes behind what was.
proof fn lemma_extends(
    parts: Seq<Part>,
    spans: Seq<Span>,
    i: int,
    depth: nat,
    q: Seq<Part>,
    look: Look,
)
    ensures
        ({
            let r = relaid(parts, spans, i, depth, q, look);
            &&& q.len() <= r.len()
            &&& forall|k: int| 0 <= k < q.len() ==> #[trigger] r[k] == q[k]
        }),
    decreases
            if i < parts.len() {
                parts.len() - i
            } else {
                0
            },
{
    if i < parts.len() {
        lemma_short(parts, i);
        let own = seq![rewritten(parts[i], look.newline)];
        if let Some((more, why)) = spans[i] {
            let q2 = q + lead(q, depth, look) + rewritten_all(parts, i, more + 1, look);
            lemma_extends(parts, spans, i + more + 1, depth, q2, look);
            lemma_prefix_of(q, lead(q, depth, look), rewritten_all(parts, i, more + 1, look));
        } else {
            match parts[i] {
                Part::Open { .. } => {
                    if let Some((inner, end)) = short(parts, i) {
                        let group = own + inner_part(inner) + seq![
                            rewritten(parts[end], look.newline),
                        ];
                        let q2 = q + lead(q, depth, look) + group;
                        lemma_extends(parts, spans, end + 1, depth, q2, look);
                        lemma_prefix_of(q, lead(q, depth, look), group);
                    } else {
                        let q2 = q + lead(q, depth, look) + own;
                        lemma_extends(parts, spans, i + 1, depth + 1, q2, look);
                        lemma_prefix_of(q, lead(q, depth, look), own);
                    }
                },
                Part::Close { .. } => {
                    let outer = if depth == 0 {
                        0
                    } else {
                        (depth - 1) as nat
                    };
                    let q2 = q + lead(q, outer, look) + own;
                    lemma_extends(parts, spans, i + 1, outer, q2, look);
                    lemma_prefix_of(q, lead(q, outer, look), own);
                },
                Part::Whole(_) => {
                    let q2 = q + lead(q, depth, look) + own;
                    lemma_extends(parts, spans, i + 1, depth, q2, look);
                    lemma_prefix_of(q, lead(q, depth, look), own);
                },
                Part::Text(_) => {
                    lemma_extends(parts, spans, i + 1, depth, q, look);
                },
            }
        }
    }
}

proof fn lemma_prefix_of(q: Seq<Part>, a: Seq<Part>, b: Seq<Part>)
    ensures
        forall|k: int| 0 <= k < q.len() ==> #[trigger] (q + a + b)[k] == q[k],
        (q + a + b).len() == q.len() + a.len() + b.len(),
{
}

// ---------------------------------------------------------------------------------------
// What a line is made of
// ---------------------------------------------------------------------------------------

/// The texts of pieces one behind the other.
proof fn lemma_tail_both(a: Seq<Part>, b: Seq<Part>)
    ensures
        tail(a + b, 0) == tail(a, 0) + tail(b, 0),
    decreases b.len(),
{
    if b.len() == 0 {
        assert(a + b =~= a);
        assert(tail(a, 0) + tail(b, 0) =~= tail(a, 0));
    } else {
        let c = b.drop_last();
        lemma_tail_both(a, c);
        assert(a + b =~= (a + c).push(b.last()));
        assert(b =~= c.push(b.last()));
        lemma_tail_push(a + c, b.last(), 0);
        lemma_tail_push(c, b.last(), 0);
        assert(tail(a + b, 0) =~= tail(a, 0) + tail(b, 0));
    }
}

proof fn lemma_tail_one(part: Part)
    ensures
        tail(seq![part], 0) == part.text(),
{
    reveal_with_fuel(tail, 2);
    assert(tail(seq![part], 0) =~= part.text());
}

/// What of a look is needed.
pub open spec fn lays_lines(look: Look) -> bool {
    is_newline(look.newline) && blank(look.indent)
}

proof fn lemma_indent(look: Look, depth: nat)
    requires
        blank(look.indent),
    ensures
        blank(repeated(look.indent, depth)),
    decreases depth,
{
    if depth > 0 {
        lemma_indent(look, (depth - 1) as nat);
        lemma_both(repeated(look.indent, (depth - 1) as nat), look.indent);
        lemma_both(look.indent, repeated(look.indent, (depth - 1) as nat));
    }
}

/// A line break and indentation are white space with a line break in it.
proof fn lemma_lead(first_line: bool, depth: nat, look: Look)
    requires
        lays_lines(look),
    ensures
        blank(lead_text(first_line, depth, look)),
        !lead_text(first_line, depth, look).contains('<'),
        !first_line ==> breaks(lead_text(first_line, depth, look)) && lead_text(
            first_line,
            depth,
            look,
        ).len() > 0,
        first_line && depth == 0 ==> lead_text(first_line, depth, look).len() == 0,
{
    lemma_newline(look.newline);
    lemma_indent(look, depth);
    let a = if first_line {
        Seq::empty()
    } else {
        look.newline
    };
    lemma_both(a, repeated(look.indent, depth));
    let text = lead_text(first_line, depth, look);
    if text.contains('<') {
        let k = choose|k: int| 0 <= k < text.len() && text[k] == '<';
        assert(is_space(text[k]));
    }
}

/// A line is its line break, its indentation and what is on it.
proof fn lemma_line(
    q: Seq<Part>,
    out: Seq<char>,
    depth: nat,
    content: Seq<char>,
    group: Seq<Part>,
    look: Look,
)
    requires
        lays_lines(look),
        tail(q, 0) == out,
        (q.len() == 0) == (out.len() == 0),
        tail(group, 0) == norm(content, look.newline),
        content.len() > 0,
        group.len() > 0,
    ensures
        tail(q + lead(q, depth, look) + group, 0) == with_line(out, depth, content, look),
        with_line(out, depth, content, look).len() > 0,
        with_line(out, depth, norm(content, look.newline), look) == with_line(
            out,
            depth,
            content,
            look,
        ),
{
    let a = lead(q, depth, look);
    let text = lead_text(q.len() == 0, depth, look);
    lemma_tail_both(q, a);
    lemma_tail_both(q + a, group);
    assert(tail(a, 0) == text) by {
        if text.len() > 0 {
            lemma_tail_one(Part::Text(text));
        } else {
            assert(tail(a, 0) =~= text);
        }
    }
    lemma_blank_norm(content, look.newline);
    lemma_norm_again(content, 0, look.newline);
    let line = with_line(out, depth, content, look);
    assert(tail(q + a + group, 0) =~= line);
}

/// The texts of pieces with their line breaks written another way are their texts, written
/// that way.
proof fn lemma_rewritten_all(parts: Seq<Part>, i: int, n: nat, look: Look)
    requires
        lays_lines(look),
        well_made(parts),
        0 <= i,
        i + n <= parts.len(),
    ensures
        tail(rewritten_all(parts, i, n, look), 0) == norm(joined(parts, i, n), look.newline),
        n > 0 ==> joined(parts, i, n).len() > 0 && joined(parts, i, n).last() == parts[i + n
            - 1].text().last(),
    decreases n,
{
    if n == 0 {
        assert(rewritten_all(parts, i, n, look).len() == 0);
        assert(norm(joined(parts, i, n), look.newline).len() == 0);
        assert(tail(rewritten_all(parts, i, n, look), 0) =~= norm(
            joined(parts, i, n),
            look.newline,
        ));
    } else {
        let m = (n - 1) as nat;
        lemma_rewritten_all(parts, i, m, look);
        let part = parts[i + n - 1];
        let before = joined(parts, i, m);
        let all = rewritten_all(parts, i, n, look);
        assert(all =~= rewritten_all(parts, i, m, look).push(rewritten(part, look.newline)));
        lemma_tail_push(rewritten_all(parts, i, m, look), rewritten(part, look.newline), 0);
        assert(part.text().len() > 0) by {
            if part is Text {
                assert(is_data(parts, i + n - 1));
            } else {
                assert(made(part));
                lemma_reads_again(part, look.newline);
            }
        }
        if m > 0 && before.last() == '\r' && part.text()[0] == '\n' {
            let earlier = parts[i + m - 1];
            if earlier is Text {
                assert(is_data(parts, i + m - 1));
                assert(!(parts[i + m - 1 + 1] is Text));
                assert(made(part));
                lemma_reads_again(part, look.newline);
            } else {
                assert(made(earlier));
                lemma_reads_again(earlier, look.newline);
            }
            assert(false);
        }
        lemma_split(before, part.text(), look.newline);
        assert(joined(parts, i, n) == before + part.text());
    }
}

/// A piece that is no character data, with its line breaks written another way.
proof fn lemma_tag(parts: Seq<Part>, k: int, look: Look)
    requires
        lays_lines(look),
        well_made(parts),
        0 <= k < parts.len(),
        !(parts[k] is Text),
    ensures
        reads(rewritten(parts[k], look.newline)),
        rewritten(parts[k], look.newline).text() == norm(parts[k].text(), look.newline),
        rewritten(parts[k], look.newline).is_cdata() == parts[k].is_cdata(),
        parts[k].text().len() > 0,
        parts[k].text()[0] == '<',
        parts[k].text().last() == '>',
        tail(seq![rewritten(parts[k], look.newline)], 0) == norm(parts[k].text(), look.newline),
{
    assert(made(parts[k]));
    lemma_reads_again(parts[k], look.newline);
    lemma_tail_one(rewritten(parts[k], look.newline));
}

// ---------------------------------------------------------------------------------------
// Lines keep pieces clean
// ---------------------------------------------------------------------------------------

proof fn lemma_clean_both(a: Seq<Part>, b: Seq<Part>)
    requires
        clean(a),
        clean(b),
        ends_in_tag(a) || (b.len() > 0 ==> !(b[0] is Text)),
    ensures
        clean(a + b),
{
    let both = a + b;
    assert forall|k: int|
        #![trigger both[k]]
        0 <= k < both.len() implies if both[k] is Text {
        is_data(both, k)
    } else {
        reads(both[k])
    } by {
        if k < a.len() {
            assert(both[k] == a[k]);
            if a[k] is Text {
                assert(is_data(a, k));
                if k + 1 < a.len() {
                    assert(both[k + 1] == a[k + 1]);
                } else if k + 1 < both.len() {
                    assert(both[k + 1] == b[0]);
                    assert(a.last() == a[k]);
                }
            }
        } else {
            let j = k - a.len();
            assert(both[k] == b[j]);
            if b[j] is Text {
                assert(is_data(b, j));
                if k + 1 < both.len() {
                    assert(both[k + 1] == b[j + 1]);
                }
            }
        }
    }
}

proof fn lemma_clean_line(q: Seq<Part>, depth: nat, group: Seq<Part>, look: Look)
    requires
        lays_lines(look),
        clean(q),
        ends_in_tag(q),
        clean(group),
        group.len() > 0,
        !(group[0] is Text),
        ends_in_tag(group),
    ensures
        clean(q + lead(q, depth, look) + group),
        ends_in_tag(q + lead(q, depth, look) + group),
{
    let a = lead(q, depth, look);
    lemma_lead(q.len() == 0, depth, look);
    assert(clean(a)) by {
        assert forall|k: int|
            #![trigger a[k]]
            0 <= k < a.len() implies if a[k] is Text {
            is_data(a, k)
        } else {
            reads(a[k])
        } by {}
    }
    lemma_clean_both(a, group);
    assert(a.len() == 0 ==> a + group =~= group);
    if a.len() == 0 {
        assert(q + a + group =~= q + group);
        lemma_clean_both(q, group);
    } else {
        lemma_clean_both(q, a + group);
        assert(q + a + group =~= q + (a + group));
    }
    assert((q + a + group).last() == group.last());
}

proof fn lemma_clean_one(part: Part)
    requires
        reads(part),
        !(part is Text),
    ensures
        clean(seq![part]),
        ends_in_tag(seq![part]),
{
}

proof fn lemma_clean_all(parts: Seq<Part>, i: int, n: nat, look: Look)
    requires
        lays_lines(look),
        well_made(parts),
        0 <= i,
        n > 0,
        i + n <= parts.len(),
        !(parts[i + n - 1] is Text),
    ensures
        clean(rewritten_all(parts, i, n, look)),
        ends_in_tag(rewritten_all(parts, i, n, look)),
{
    let all = rewritten_all(parts, i, n, look);
    assert forall|k: int|
        #![trigger all[k]]
        0 <= k < all.len() implies if all[k] is Text {
        is_data(all, k)
    } else {
        reads(all[k])
    } by {
        let part = parts[i + k];
        assert(all[k] == rewritten(part, look.newline));
        if part is Text {
            assert(is_data(parts, i + k));
            lemma_blank_norm(part.text(), look.newline);
            lemma_contains(part.text(), 0, '<', look.newline);
            assert(part.text().subrange(0, part.text().len() as int) =~= part.text());
            if k + 1 < all.len() {
                assert(all[k + 1] == rewritten(parts[i + k + 1], look.newline));
            }
        } else {
            lemma_tag(parts, i + k, look);
        }
    }
    assert(all.last() == rewritten(parts[i + n - 1], look.newline));
}

// ---------------------------------------------------------------------------------------
// Which elements are kept
// ---------------------------------------------------------------------------------------

/// What is kept begins at an opening tag.
pub open spec fn kept_open(parts: Seq<Part>, spans: Seq<Span>) -> bool {
    &&& spans.len() == parts.len()
    &&& forall|j: int|
        0 <= j < spans.len() && (#[trigger] spans[j]) is Some ==> parts[j] is Open
}

proof fn lemma_kept_open(parts: Seq<Part>, k: int, open: Seq<Opened>, spans: Seq<Span>)
    requires
        sound(parts, k, open, spans),
        weighed_from(parts, k, open, spans) is Ok,
        kept_open(parts, spans),
        forall|a: int| 0 <= a < open.len() ==> parts[(#[trigger] open[a]).start] is Open,
    ensures
        kept_open(parts, weighed_from(parts, k, open, spans)->Ok_0),
    decreases parts.len() - k,
{
    if k < parts.len() {
        lemma_step(parts, k, open, spans);
        let (open2, spans2) = after_piece(parts, k, open, spans);
        assert forall|a: int| 0 <= a < open2.len() implies parts[(
        #[trigger] open2[a]).start] is Open by {
            if a < open.len() {
                assert(open2[a].start == open[a].start);
            }
        }
        if parts[k] is Close {
            let j = open[open.len() - 1].start;
            assert(parts[j] is Open);
        }
        lemma_kept_open(parts, k + 1, open2, spans2);
    }
}

/// An open element that keeps its white space is kept.
proof fn lemma_space_is_kept(
    parts: Seq<Part>,
    k: int,
    open: Seq<Opened>,
    spans: Seq<Span>,
    a: int,
)
    requires
        sound(parts, k, open, spans),
        weighed_from(parts, k, open, spans) is Ok,
        0 <= a < open.len(),
        open[a].space,
    ensures
        weighed_from(parts, k, open, spans)->Ok_0[open[a].start] is Some,
    decreases parts.len() - k,
{
    if k < parts.len() {
        lemma_step(parts, k, open, spans);
        let (open2, spans2) = after_piece(parts, k, open, spans);
        let j = open[a].start;
        if a < open2.len() {
            assert(open2[a].start == j && open2[a].space);
            lemma_space_is_kept(parts, k + 1, open2, spans2, a);
        } else {
            assert(a == open.len() - 1);
            assert forall|b: int| 0 <= b < open2.len() implies (#[trigger] open2[b]).start != j by {
                assert(open[b].start < open[a].start);
            }
            lemma_settled(parts, k + 1, open2, spans2, j);
        }
    }
}

/// One step of the weighing where the piece is in its place.
proof fn lemma_goes_on(parts: Seq<Part>, k: int, open: Seq<Opened>, spans: Seq<Span>)
    requires
        k < parts.len(),
        sound(parts, k, open, spans),
        parts[k] matches Part::Close { name, .. } ==> open.len() > 0 && open.last().name == name,
        parts[k] matches Part::Text(text) ==> open.len() > 0 || blank(text),
    ensures
        ({
            let (open2, spans2) = after_piece(parts, k, open, spans);
            &&& weighed_from(parts, k, open, spans) == weighed_from(parts, k + 1, open2, spans2)
            &&& sound(parts, k + 1, open2, spans2)
        }),
{
    let (open2, spans2) = after_piece(parts, k, open, spans);
    assert forall|a: int, b: int| 0 <= a < b < open2.len() implies (#[trigger] open2[a]).start < (
    #[trigger] open2[b]).start by {
        if b < open.len() {
            assert(open[a].start < open[b].start);
        }
    }
}

/// A piece that opens nothing is not kept.
proof fn lemma_not_kept(parts: Seq<Part>, k: int, open: Seq<Opened>, spans: Seq<Span>)
    requires
        k < parts.len(),
        sound(parts, k, open, spans),
        weighed_from(parts, k, open, spans) is Ok,
        !(parts[k] is Open),
    ensures
        weighed_from(parts, k, open, spans)->Ok_0[k] is None,
{
    lemma_step(parts, k, open, spans);
    let (open2, spans2) = after_piece(parts, k, open, spans);
    assert(!opened_at(open2, k));
    if parts[k] is Close {
        assert(open[open.len() - 1].start < k);
    }
    lemma_settled(parts, k + 1, open2, spans2, k);
}

// ---------------------------------------------------------------------------------------
// A kept element is weighed again as it was
// ---------------------------------------------------------------------------------------

/// The innermost open elements from level `n` on are the same, `delta` pieces further on.
pub open spec fn shifted(open: Seq<Opened>, again: Seq<Opened>, n: int, delta: int) -> bool {
    &&& open.len() == again.len()
    &&& forall|a: int|
        n <= a < open.len() ==> #[trigger] again[a] == (Opened {
            start: open[a].start + delta,
            ..open[a]
        })
}

/// One step of it.
proof fn lemma_copy_step(
    parts: Seq<Part>,
    qf: Seq<Part>,
    k: int,
    delta: int,
    n: int,
    look: Look,
    open: Seq<Opened>,
    spans: Seq<Span>,
    openq: Seq<Opened>,
    spansq: Seq<Span>,
)
    requires
        lays_lines(look),
        well_made(parts),
        k < parts.len(),
        sound(parts, k, open, spans),
        weighed_from(parts, k, open, spans) is Ok,
        sound(qf, k + delta, openq, spansq),
        0 <= n < open.len(),
        shifted(open, openq, n, delta),
        k + delta < qf.len(),
        qf[k + delta] == rewritten(parts[k], look.newline),
        spans[open[n].start] == spansq[openq[n].start],
    ensures
        ({
            let (open2, spans2) = after_piece(parts, k, open, spans);
            let (openq2, spansq2) = after_piece(qf, k + delta, openq, spansq);
            &&& weighed_from(qf, k + delta, openq, spansq) == weighed_from(
                qf,
                k + 1 + delta,
                openq2,
                spansq2,
            )
            &&& sound(qf, k + 1 + delta, openq2, spansq2)
            &&& shifted(open2, openq2, n, delta)
            &&& openq2.len() >= n
            &&& openq2.subrange(0, n) == openq.subrange(0, n)
            &&& spans2[open[n].start] == spansq2[openq[n].start]
            &&& forall|j: int| 0 <= j < openq[n].start ==> #[trigger] spansq2[j] == spansq[j]
            &&& n < openq2.len() ==> openq2[n].start == openq[n].start && open2[n].start
                == open[n].start
        }),
{
    lemma_step(parts, k, open, spans);
    let part = parts[k];
    let (open2, spans2) = after_piece(parts, k, open, spans);
    assert(openq.last() == openq[openq.len() - 1]);
    assert(open.last() == open[open.len() - 1]);
    if part is Text {
        lemma_blank_norm(part.text(), look.newline);
    } else {
        lemma_tag(parts, k, look);
        lemma_preserves(part.text(), look.newline);
    }
    lemma_goes_on(qf, k + delta, openq, spansq);
    let (openq2, spansq2) = after_piece(qf, k + delta, openq, spansq);
    assert(openq2.subrange(0, n) =~= openq.subrange(0, n));
    if part is Close {
        let j = open.last().start;
        assert(openq.last().start == j + delta);
        assert(reason(openq.last()) == reason(open.last()));
        if n < open.len() - 1 {
            assert(open[n].start < open[open.len() - 1].start);
            assert(openq[n].start < openq[openq.len() - 1].start);
        }
    }
}

/// An element weighed again with the same inside is kept for the same reason or not kept as
/// before.
proof fn lemma_copy(
    parts: Seq<Part>,
    qf: Seq<Part>,
    k: int,
    delta: int,
    n: int,
    look: Look,
    open: Seq<Opened>,
    spans: Seq<Span>,
    openq: Seq<Opened>,
    spansq: Seq<Span>,
) -> (r: (Seq<Span>, Seq<Span>))
    requires
        lays_lines(look),
        well_made(parts),
        sound(parts, k, open, spans),
        weighed_from(parts, k, open, spans) is Ok,
        sound(qf, k + delta, openq, spansq),
        0 <= n < open.len(),
        shifted(open, openq, n, delta),
        closes_at(parts, k, open.len() - n) + delta < qf.len(),
        forall|j: int|
            k <= j <= closes_at(parts, k, open.len() - n) ==> qf[j + delta] == rewritten(
                #[trigger] parts[j],
                look.newline,
            ),
        spans[open[n].start] == spansq[openq[n].start],
    ensures
        ({
            let (spans2, spansq2) = r;
            let m = closes_at(parts, k, open.len() - n);
            &&& k <= m < parts.len()
            &&& parts[m] is Close
            &&& sound(parts, m + 1, open.subrange(0, n), spans2)
            &&& weighed_from(parts, m + 1, open.subrange(0, n), spans2) == weighed_from(
                parts,
                k,
                open,
                spans,
            )
            &&& sound(qf, m + 1 + delta, openq.subrange(0, n), spansq2)
            &&& weighed_from(qf, m + 1 + delta, openq.subrange(0, n), spansq2) == weighed_from(
                qf,
                k + delta,
                openq,
                spansq,
            )
            &&& spans2[open[n].start] == spansq2[openq[n].start]
            &&& forall|j: int| 0 <= j < openq[n].start ==> #[trigger] spansq2[j] == spansq[j]
        }),
    decreases parts.len() - k,
{
    lemma_closes(parts, k, open, spans, n);
    lemma_step(parts, k, open, spans);
    assert(qf[k + delta] == rewritten(parts[k], look.newline));
    lemma_copy_step(parts, qf, k, delta, n, look, open, spans, openq, spansq);
    let (open2, spans2) = after_piece(parts, k, open, spans);
    let (openq2, spansq2) = after_piece(qf, k + delta, openq, spansq);
    assert(open2.subrange(0, n) =~= open.subrange(0, n));
    if n < open2.len() {
        let (spans3, spansq3) = lemma_copy(
            parts,
            qf,
            k + 1,
            delta,
            n,
            look,
            open2,
            spans2,
            openq2,
            spansq2,
        );
        assert forall|j: int| 0 <= j < openq[n].start implies #[trigger] spansq3[j]
            == spansq[j] by {
            assert(spansq2[j] == spansq[j]);
        }
        (spans3, spansq3)
    } else {
        assert(open2 =~= open.subrange(0, n));
        assert(openq2 =~= openq.subrange(0, n));
        (spans2, spansq2)
    }
}

// ---------------------------------------------------------------------------------------
// Elements on one line
// ---------------------------------------------------------------------------------------

/// The pieces of an element on one line.
pub open spec fn short_group(parts: Seq<Part>, i: int, look: Look) -> Seq<Part> {
    let (inner, end) = short(parts, i)->0;
    seq![rewritten(parts[i], look.newline)] + inner_part(inner) + seq![
        rewritten(parts[end], look.newline),
    ]
}

proof fn lemma_short_group(parts: Seq<Part>, i: int, look: Look)
    requires
        lays_lines(look),
        well_made(parts),
        0 <= i < parts.len(),
        short(parts, i) is Some,
    ensures
        ({
            let (inner, end) = short(parts, i)->0;
            let group = short_group(parts, i, look);
            let content = parts[i].text() + inner + parts[end].text();
            &&& i < end < parts.len()
            &&& parts[i] is Open
            &&& parts[end] is Close
            &&& parts[end]->Close_name == parts[i]->Open_name
            &&& forall|j: int|
                i < j < end ==> (#[trigger] parts[j]).is_blank() || parts[j].is_cdata()
            &&& clean(group)
            &&& ends_in_tag(group)
            &&& group.len() > 0
            &&& !(group[0] is Text)
            &&& tail(group, 0) == norm(content, look.newline)
            &&& content.len() > 0
            &&& inner.len() > 0 ==> Part::Whole(inner).is_cdata() && !breaks(inner)
        }),
{
    let (inner, end) = short(parts, i)->0;
    let group = short_group(parts, i, look);
    let a = past_blanks(parts, i + 1);
    lemma_past_blanks(parts, i + 1);
    lemma_past_blanks(parts, a + 1);
    lemma_tag(parts, i, look);
    lemma_tag(parts, end, look);
    let front = rewritten(parts[i], look.newline);
    let back = rewritten(parts[end], look.newline);
    lemma_clean_one(front);
    lemma_clean_one(back);
    lemma_split(parts[i].text() + inner, parts[end].text(), look.newline);
    lemma_tail_both(seq![front] + inner_part(inner), seq![back]);
    lemma_tail_both(seq![front], inner_part(inner));
    if inner.len() > 0 {
        lemma_tag(parts, a, look);
        lemma_kept(inner, look.newline);
        let middle = rewritten(parts[a], look.newline);
        assert(middle == Part::Whole(inner));
        lemma_clean_one(middle);
        lemma_tail_one(middle);
        lemma_split(parts[i].text(), inner, look.newline);
        lemma_clean_both(seq![front], inner_part(inner));
        lemma_clean_both(seq![front] + inner_part(inner), seq![back]);
    } else {
        assert(parts[i].text() + inner =~= parts[i].text());
        assert(seq![front] + inner_part(inner) =~= seq![front]);
        assert(tail(inner_part(inner), 0) =~= Seq::<char>::empty());
        lemma_clean_both(seq![front], seq![back]);
    }
    assert(group.last() == back);
    assert(group[0] == front);
}

/// An element on one line is on one line again.
proof fn lemma_short_again(parts: Seq<Part>, i: int, qf: Seq<Part>, k: int, look: Look)
    requires
        lays_lines(look),
        well_made(parts),
        0 <= i < parts.len(),
        short(parts, i) is Some,
        0 <= k,
        k + short_group(parts, i, look).len() <= qf.len(),
        forall|j: int|
            0 <= j < short_group(parts, i, look).len() ==> qf[k + j] == #[trigger] short_group(
                parts,
                i,
                look,
            )[j],
    ensures
        short(qf, k) == Some(
            ((short(parts, i)->0).0, k + short_group(parts, i, look).len() - 1),
        ),
{
    let (inner, end) = short(parts, i)->0;
    let group = short_group(parts, i, look);
    lemma_short_group(parts, i, look);
    assert(qf[k] == group[0]);
    assert(qf[k + 1] == group[1]);
    assert(past_blanks(qf, k + 1) == k + 1);
    if inner.len() > 0 {
        assert(group[1] == Part::Whole(inner));
        assert(qf[k + 2] == group[2]);
        assert(past_blanks(qf, k + 2) == k + 2);
    } else {
        assert(inner =~= Seq::<char>::empty());
    }
}

// ---------------------------------------------------------------------------------------
// The pieces of what was laid out are its text
// ---------------------------------------------------------------------------------------

/// How far laying out has come: before piece `i`, `q` being the pieces of `out`.
pub open spec fn under_way(
    parts: Seq<Part>,
    i: int,
    q: Seq<Part>,
    out: Seq<char>,
    look: Look,
    open: Seq<Opened>,
    spans: Seq<Span>,
) -> bool {
    &&& lays_lines(look)
    &&& well_made(parts)
    &&& sound(parts, i, open, spans)
    &&& weighed_from(parts, i, open, spans) is Ok
    &&& clear(open, weighed_from(parts, i, open, spans)->Ok_0)
    &&& kept_open(parts, weighed_from(parts, i, open, spans)->Ok_0)
    &&& clean(q)
    &&& ends_in_tag(q)
    &&& tail(q, 0) == out
    &&& (q.len() == 0) == (out.len() == 0)
    &&& q.len() == 0 ==> open.len() == 0
}

/// Where laying out goes on after piece `i`: the depth, the pieces and the text.
pub open spec fn next_line(
    parts: Seq<Part>,
    i: int,
    depth: nat,
    q: Seq<Part>,
    out: Seq<char>,
    look: Look,
) -> (nat, Seq<Part>, Seq<char>) {
    let own = seq![rewritten(parts[i], look.newline)];
    let outer = if depth == 0 {
        0
    } else {
        (depth - 1) as nat
    };
    match parts[i] {
        Part::Open { text, .. } => (
            depth + 1,
            q + lead(q, depth, look) + own,
            with_line(out, depth, text, look),
        ),
        Part::Close { text, .. } => (
            outer,
            q + lead(q, outer, look) + own,
            with_line(out, outer, text, look),
        ),
        Part::Whole(text) => (
            depth,
            q + lead(q, depth, look) + own,
            with_line(out, depth, text, look),
        ),
        Part::Text(_) => (depth, q, out),
    }
}

/// One piece on its line.
proof fn lemma_one_line(
    parts: Seq<Part>,
    i: int,
    depth: nat,
    q: Seq<Part>,
    out: Seq<char>,
    look: Look,
    open: Seq<Opened>,
    spans: Seq<Span>,
)
    requires
        i < parts.len(),
        under_way(parts, i, q, out, look, open, spans),
        weighed_from(parts, i, open, spans)->Ok_0[i] is None,
    ensures
        ({
            let (inner, q2, out2) = next_line(parts, i, depth, q, out, look);
            let (open2, spans2) = after_piece(parts, i, open, spans);
            &&& under_way(parts, i + 1, q2, out2, look, open2, spans2)
            &&& weighed_from(parts, i + 1, open2, spans2) == weighed_from(parts, i, open, spans)
        }),
{
    let last = weighed_from(parts, i, open, spans)->Ok_0;
    lemma_step(parts, i, open, spans);
    let (inner, q2, out2) = next_line(parts, i, depth, q, out, look);
    let (open2, spans2) = after_piece(parts, i, open, spans);
    assert forall|a: int| 0 <= a < open2.len() implies last[(
    #[trigger] open2[a]).start] is None by {
        if a < open.len() {
            assert(open2[a].start == open[a].start);
        }
    }
    if !(parts[i] is Text) {
        let outer = if depth == 0 {
            0
        } else {
            (depth - 1) as nat
        };
        let at = if parts[i] is Close {
            outer
        } else {
            depth
        };
        let own = seq![rewritten(parts[i], look.newline)];
        lemma_tag(parts, i, look);
        lemma_clean_one(rewritten(parts[i], look.newline));
        lemma_line(q, out, at, parts[i].text(), own, look);
        lemma_clean_line(q, at, own, look);
    }
}

/// A kept element on its lines.
proof fn lemma_kept_line(
    parts: Seq<Part>,
    i: int,
    depth: nat,
    q: Seq<Part>,
    out: Seq<char>,
    look: Look,
    open: Seq<Opened>,
    spans: Seq<Span>,
) -> (r: Seq<Span>)
    requires
        i < parts.len(),
        under_way(parts, i, q, out, look, open, spans),
        weighed_from(parts, i, open, spans)->Ok_0[i] is Some,
    ensures
        ({
            let (more, why) = weighed_from(parts, i, open, spans)->Ok_0[i]->0;
            let q2 = q + lead(q, depth, look) + rewritten_all(parts, i, more + 1, look);
            let content = joined(parts, i, more + 1);
            let out2 = with_line(out, depth, content, look);
            &&& parts[i] is Open
            &&& i + more == closes_at(parts, i + 1, 1)
            &&& i + more < parts.len()
            &&& parts[i + more] is Close
            &&& under_way(parts, i + more + 1, q2, out2, look, marked(open), r)
            &&& weighed_from(parts, i + more + 1, marked(open), r) == weighed_from(
                parts,
                i,
                open,
                spans,
            )
            &&& with_line(out, depth, norm(content, look.newline), look) == out2
        }),
{
    let last = weighed_from(parts, i, open, spans)->Ok_0;
    let (more, why) = last[i]->0;
    lemma_step(parts, i, open, spans);
    let (open2, spans2) = after_piece(parts, i, open, spans);
    let n = open.len() as int;
    assert(open2[n].start == i);
    let (m, spans3) = lemma_closes(parts, i + 1, open2, spans2, n);
    assert(more == m - i);
    assert(open2.subrange(0, n) =~= marked(open));
    assert forall|a: int| 0 <= a < marked(open).len() implies last[(
    #[trigger] marked(open)[a]).start] is None by {
        assert(marked(open)[a].start == open[a].start);
    }
    let group = rewritten_all(parts, i, more + 1, look);
    lemma_rewritten_all(parts, i, more + 1, look);
    lemma_clean_all(parts, i, more + 1, look);
    assert(group[0] == rewritten(parts[i + 0], look.newline));
    lemma_line(q, out, depth, joined(parts, i, more + 1), group, look);
    lemma_clean_line(q, depth, group, look);
    spans3
}

/// An element on one line.
proof fn lemma_short_line(
    parts: Seq<Part>,
    i: int,
    depth: nat,
    q: Seq<Part>,
    out: Seq<char>,
    look: Look,
    open: Seq<Opened>,
    spans: Seq<Span>,
) -> (r: Seq<Span>)
    requires
        i < parts.len(),
        under_way(parts, i, q, out, look, open, spans),
        weighed_from(parts, i, open, spans)->Ok_0[i] is None,
        short(parts, i) is Some,
    ensures
        ({
            let (inner, end) = short(parts, i)->0;
            let q2 = q + lead(q, depth, look) + short_group(parts, i, look);
            let content = parts[i].text() + inner + parts[end].text();
            let out2 = with_line(out, depth, content, look);
            &&& under_way(parts, end + 1, q2, out2, look, marked(open), r)
            &&& weighed_from(parts, end + 1, marked(open), r) == weighed_from(
                parts,
                i,
                open,
                spans,
            )
            &&& with_line(out, depth, norm(content, look.newline), look) == out2
        }),
{
    let last = weighed_from(parts, i, open, spans)->Ok_0;
    let (inner, end) = short(parts, i)->0;
    lemma_short_group(parts, i, look);
    lemma_step(parts, i, open, spans);
    let (open2, spans2) = after_piece(parts, i, open, spans);
    let open3 = lemma_over_blanks(parts, i + 1, end, open2, spans2);
    lemma_step(parts, end, open3, spans2);
    let (open4, spans4) = after_piece(parts, end, open3, spans2);
    assert(open4 =~= marked(open));
    assert forall|a: int| 0 <= a < open4.len() implies last[(
    #[trigger] open4[a]).start] is None by {
        assert(open4[a].start == open[a].start);
    }
    let group = short_group(parts, i, look);
    let content = parts[i].text() + inner + parts[end].text();
    lemma_line(q, out, depth, content, group, look);
    lemma_clean_line(q, depth, group, look);
    spans4
}

/// The pieces that are laid out read back from the text that is laid out.
proof fn lemma_relaid(
    parts: Seq<Part>,
    i: int,
    depth: nat,
    q: Seq<Part>,
    out: Seq<char>,
    kept: Seq<Kept>,
    look: Look,
    open: Seq<Opened>,
    spans: Seq<Span>,
)
    requires
        under_way(parts, i, q, out, look, open, spans),
    ensures
        ({
            let last = weighed_from(parts, i, open, spans)->Ok_0;
            let r = relaid(parts, last, i, depth, q, look);
            &&& clean(r)
            &&& ends_in_tag(r)
            &&& tail(r, 0) == lines_from(parts, last, i, depth, out, kept, look).0
        }),
    decreases parts.len() - i,
{
    let last = weighed_from(parts, i, open, spans)->Ok_0;
    if i < parts.len() {
        if let Some((more, why)) = last[i] {
            let spans3 = lemma_kept_line(parts, i, depth, q, out, look, open, spans);
            let q2 = q + lead(q, depth, look) + rewritten_all(parts, i, more + 1, look);
            let out2 = with_line(out, depth, joined(parts, i, more + 1), look);
            lemma_relaid(
                parts,
                i + more + 1,
                depth,
                q2,
                out2,
                kept.push(why),
                look,
                marked(open),
                spans3,
            );
        } else if parts[i] is Open && short(parts, i) is Some {
            let (inner, end) = short(parts, i)->0;
            let spans3 = lemma_short_line(parts, i, depth, q, out, look, open, spans);
            lemma_short(parts, i);
            let q2 = q + lead(q, depth, look) + short_group(parts, i, look);
            let out2 = with_line(
                out,
                depth,
                parts[i].text() + inner + parts[end].text(),
                look,
            );
            lemma_relaid(parts, end + 1, depth, q2, out2, kept, look, marked(open), spans3);
        } else {
            lemma_one_line(parts, i, depth, q, out, look, open, spans);
            let (inner, q2, out2) = next_line(parts, i, depth, q, out, look);
            let (open2, spans2) = after_piece(parts, i, open, spans);
            lemma_relaid(parts, i + 1, inner, q2, out2, kept, look, open2, spans2);
        }
    }
}

// ---------------------------------------------------------------------------------------
// Elements on several lines
// ---------------------------------------------------------------------------------------

/// What comes first inside an element that is not kept, past indentation: markup, and if it
/// is a closing tag, the element's own.
proof fn lemma_comes_first(
    parts: Seq<Part>,
    k: int,
    open: Seq<Opened>,
    spans: Seq<Span>,
) -> (r: Seq<Opened>)
    requires
        sound(parts, k, open, spans),
        weighed_from(parts, k, open, spans) is Ok,
        clear(open, weighed_from(parts, k, open, spans)->Ok_0),
        open.len() > 0,
    ensures
        ({
            let a = past_blanks(parts, k);
            &&& k <= a < parts.len()
            &&& !(parts[a] is Text)
            &&& parts[a] matches Part::Close { name, .. } ==> name == open.last().name
            &&& sound(parts, a, r, spans)
            &&& weighed_from(parts, a, r, spans) == weighed_from(parts, k, open, spans)
            &&& clear(r, weighed_from(parts, k, open, spans)->Ok_0)
            &&& r.len() == open.len()
            &&& r.last().name == open.last().name
        }),
    decreases parts.len() - k,
{
    let last = weighed_from(parts, k, open, spans)->Ok_0;
    assert(k < parts.len());
    lemma_step(parts, k, open, spans);
    let (open2, spans2) = after_piece(parts, k, open, spans);
    if parts[k] is Text {
        assert forall|a: int| 0 <= a < open2.len() implies last[(
        #[trigger] open2[a]).start] is None by {
            assert(open2[a].start == open[a].start);
        }
        if !parts[k].is_blank() {
            lemma_text_is_kept(parts, k + 1, open2, spans2, open2.len() - 1);
            assert(false);
        }
        lemma_comes_first(parts, k + 1, open2, spans2)
    } else {
        open
    }
}

/// The next line is a line break with indentation, and the next piece of markup.
proof fn lemma_next(
    parts: Seq<Part>,
    spans: Seq<Span>,
    i: int,
    depth: nat,
    q: Seq<Part>,
    look: Look,
)
    requires
        lays_lines(look),
        kept_open(parts, spans),
        0 <= i,
        past_blanks(parts, i) < parts.len(),
        !(parts[past_blanks(parts, i)] is Text),
        q.len() > 0,
    ensures
        ({
            let a = past_blanks(parts, i);
            let r = relaid(parts, spans, i, depth, q, look);
            let own = seq![rewritten(parts[a], look.newline)];
            &&& r.len() >= q.len() + 2
            &&& r[q.len() as int].is_blank()
            &&& r[q.len() + 1 as int] == rewritten(parts[a], look.newline)
            &&& parts[a] is Whole ==> r == relaid(
                parts,
                spans,
                a + 1,
                depth,
                q + lead(q, depth, look) + own,
                look,
            )
        }),
    decreases parts.len() - i,
{
    let a = past_blanks(parts, i);
    if parts[i].is_blank() {
        assert(spans[i] is None);
        lemma_past_blanks(parts, i + 1);
        lemma_next(parts, spans, i + 1, depth, q, look);
    } else {
        let own = seq![rewritten(parts[i], look.newline)];
        let outer = if depth == 0 {
            0
        } else {
            (depth - 1) as nat
        };
        let at = if parts[i] is Close {
            outer
        } else {
            depth
        };
        lemma_lead(false, at, look);
        if let Some((more, why)) = spans[i] {
            let group = rewritten_all(parts, i, more + 1, look);
            assert(group[0] == rewritten(parts[i + 0], look.newline));
            lemma_extends(
                parts,
                spans,
                i + more + 1,
                depth,
                q + lead(q, depth, look) + group,
                look,
            );
            lemma_second(q, lead(q, depth, look), group);
        } else if parts[i] is Open && short(parts, i) is Some {
            let (inner, end) = short(parts, i)->0;
            let group = own + inner_part(inner) + seq![rewritten(parts[end], look.newline)];
            lemma_extends(parts, spans, end + 1, depth, q + lead(q, depth, look) + group, look);
            lemma_second(q, lead(q, depth, look), group);
        } else {
            let inner = if parts[i] is Open {
                depth + 1
            } else {
                at
            };
            lemma_extends(parts, spans, i + 1, inner, q + lead(q, at, look) + own, look);
            lemma_second(q, lead(q, at, look), own);
        }
    }
}

proof fn lemma_second(q: Seq<Part>, a: Seq<Part>, b: Seq<Part>)
    requires
        a.len() == 1,
        b.len() > 0,
    ensures
        (q + a + b).len() >= q.len() + 2,
        (q + a + b)[q.len() as int] == a[0],
        (q + a + b)[q.len() + 1 as int] == b[0],
{
}

/// An element on several lines is on several lines again.
proof fn lemma_long_again(
    parts: Seq<Part>,
    i: int,
    depth: nat,
    q: Seq<Part>,
    look: Look,
    open: Seq<Opened>,
    spans: Seq<Span>,
)
    requires
        lays_lines(look),
        well_made(parts),
        0 <= i < parts.len(),
        parts[i] is Open,
        short(parts, i) is None,
        sound(parts, i + 1, open, spans),
        weighed_from(parts, i + 1, open, spans) is Ok,
        clear(open, weighed_from(parts, i + 1, open, spans)->Ok_0),
        kept_open(parts, weighed_from(parts, i + 1, open, spans)->Ok_0),
        open.len() > 0,
        open.last().name == parts[i]->Open_name,
        q.len() > 0,
        q.last() == rewritten(parts[i], look.newline),
    ensures
        short(
            relaid(
                parts,
                weighed_from(parts, i + 1, open, spans)->Ok_0,
                i + 1,
                depth,
                q,
                look,
            ).push(Part::Text(look.newline)),
            q.len() - 1,
        ) is None,
{
    let last = weighed_from(parts, i + 1, open, spans)->Ok_0;
    let r = relaid(parts, last, i + 1, depth, q, look);
    let qf = r.push(Part::Text(look.newline));
    let k = q.len() - 1;
    lemma_extends(parts, last, i + 1, depth, q, look);
    assert(qf[k] == r[k]);
    let open2 = lemma_comes_first(parts, i + 1, open, spans);
    let a = past_blanks(parts, i + 1);
    lemma_next(parts, last, i + 1, depth, q, look);
    assert(qf[k + 1] == r[k + 1]);
    assert(qf[k + 2] == r[k + 2]);
    assert(past_blanks(qf, k + 2) == k + 2);
    assert(past_blanks(qf, k + 1) == k + 2);
    lemma_tag(parts, a, look);
    lemma_blank_norm(parts[a].text(), look.newline);
    assert(!(parts[a] is Close));
    if parts[a].is_cdata() && !breaks(parts[a].text()) {
        lemma_step(parts, a, open2, spans);
        let open3 = lemma_comes_first(parts, a + 1, open2, spans);
        let b = past_blanks(parts, a + 1);
        assert(!(parts[b] is Close));
        let own = seq![rewritten(parts[a], look.newline)];
        let q2 = q + lead(q, depth, look) + own;
        lemma_lead(false, depth, look);
        assert(q2.len() == k + 3);
        lemma_next(parts, last, a + 1, depth, q2, look);
        assert(qf[k + 3] == r[k + 3]);
        assert(qf[k + 4] == r[k + 4]);
        assert(past_blanks(qf, k + 4) == k + 4);
        assert(past_blanks(qf, k + 3) == k + 4);
    }
}

// ---------------------------------------------------------------------------------------
// Laying out what was laid out
// ---------------------------------------------------------------------------------------

/// The pieces of what comes out: those of the lines, and the line break at the end.
pub open spec fn laid(
    parts: Seq<Part>,
    spans: Seq<Span>,
    i: int,
    depth: nat,
    q: Seq<Part>,
    look: Look,
) -> Seq<Part> {
    relaid(parts, spans, i, depth, q, look).push(Part::Text(look.newline))
}

/// The same elements are open, and none of them, as laid out, is to be kept.
pub open spec fn twin(open: Seq<Opened>, openq: Seq<Opened>) -> bool {
    &&& open.len() == openq.len()
    &&& forall|a: int|
        0 <= a < open.len() ==> {
            &&& open[a].name == (#[trigger] openq[a]).name
            &&& !openq[a].space
            &&& !openq[a].text
            &&& !openq[a].spaces
        }
}

/// Laying out, and laying out what came of it, have come equally far.
pub open spec fn in_step(
    parts: Seq<Part>,
    i: int,
    depth: nat,
    q: Seq<Part>,
    out: Seq<char>,
    look: Look,
    open: Seq<Opened>,
    spans: Seq<Span>,
    openq: Seq<Opened>,
    spansq: Seq<Span>,
) -> bool {
    let last = weighed_from(parts, i, open, spans)->Ok_0;
    &&& under_way(parts, i, q, out, look, open, spans)
    &&& depth == open.len()
    &&& twin(open, openq)
    &&& sound(laid(parts, last, i, depth, q, look), q.len() as int, openq, spansq)
    &&& clear(openq, spansq)
}

/// From there on they do the same.
pub open spec fn same_again(
    parts: Seq<Part>,
    i: int,
    depth: nat,
    q: Seq<Part>,
    out: Seq<char>,
    kept: Seq<Kept>,
    look: Look,
    open: Seq<Opened>,
    spans: Seq<Span>,
    openq: Seq<Opened>,
    spansq: Seq<Span>,
) -> bool {
    let last = weighed_from(parts, i, open, spans)->Ok_0;
    let qf = laid(parts, last, i, depth, q, look);
    let again = weighed_from(qf, q.len() as int, openq, spansq);
    &&& again is Ok
    &&& clear(openq, again->Ok_0)
    &&& lines_from(qf, again->Ok_0, q.len() as int, depth, out, kept, look) == lines_from(
        parts,
        last,
        i,
        depth,
        out,
        kept,
        look,
    )
}

/// The line break and the indentation in front of a line are neither content nor a line.
proof fn lemma_over_lead(
    qf: Seq<Part>,
    q: Seq<Part>,
    at: nat,
    depth: nat,
    out: Seq<char>,
    kept: Seq<Kept>,
    look: Look,
    openq: Seq<Opened>,
    spansq: Seq<Span>,
)
    requires
        lays_lines(look),
        sound(qf, q.len() as int, openq, spansq),
        q.len() + lead(q, at, look).len() <= qf.len(),
        lead(q, at, look).len() > 0 ==> qf[q.len() as int] == lead(q, at, look)[0],
        q.len() == 0 ==> openq.len() == 0,
    ensures
        ({
            let k = q.len() + lead(q, at, look).len();
            let again = weighed_from(qf, q.len() as int, openq, spansq);
            &&& sound(qf, k as int, openq, spansq)
            &&& weighed_from(qf, k as int, openq, spansq) == again
            &&& again is Ok ==> lines_from(
                qf,
                again->Ok_0,
                q.len() as int,
                depth,
                out,
                kept,
                look,
            ) == lines_from(qf, again->Ok_0, k as int, depth, out, kept, look)
        }),
{
    let k = q.len() as int;
    lemma_lead(q.len() == 0, at, look);
    if lead(q, at, look).len() > 0 {
        lemma_goes_on(qf, k, openq, spansq);
        assert(holding(openq, qf[k].text()) == openq);
        if weighed_from(qf, k, openq, spansq) is Ok {
            lemma_not_kept(qf, k, openq, spansq);
        }
    }
}

/// A line stands in what is laid out where it was put.
proof fn lemma_in_place(
    parts: Seq<Part>,
    spans: Seq<Span>,
    i: int,
    depth: nat,
    q: Seq<Part>,
    a: Seq<Part>,
    group: Seq<Part>,
    look: Look,
)
    ensures
        ({
            let qf = laid(parts, spans, i, depth, q + a + group, look);
            let k = q.len() + a.len();
            &&& k + group.len() < qf.len()
            &&& a.len() > 0 ==> qf[q.len() as int] == a[0]
            &&& forall|j: int| 0 <= j < group.len() ==> qf[k + j] == #[trigger] group[j]
        }),
{
    let q2 = q + a + group;
    let r = relaid(parts, spans, i, depth, q2, look);
    let qf = laid(parts, spans, i, depth, q2, look);
    let k = q.len() + a.len();
    lemma_extends(parts, spans, i, depth, q2, look);
    if a.len() > 0 {
        assert(r[q.len() as int] == q2[q.len() as int]);
    }
    assert forall|j: int| 0 <= j < group.len() implies qf[k + j] == #[trigger] group[j] by {
        assert(r[k + j] == q2[k + j]);
    }
}

#[verifier::rlimit(40)]
proof fn lemma_one_again(
    parts: Seq<Part>,
    i: int,
    depth: nat,
    q: Seq<Part>,
    out: Seq<char>,
    kept: Seq<Kept>,
    look: Look,
    open: Seq<Opened>,
    spans: Seq<Span>,
    openq: Seq<Opened>,
    spansq: Seq<Span>,
)
    requires
        i < parts.len(),
        in_step(parts, i, depth, q, out, look, open, spans, openq, spansq),
        weighed_from(parts, i, open, spans)->Ok_0[i] is None,
        parts[i] is Open ==> short(parts, i) is None,
        !(parts[i] is Text),
    ensures
        same_again(parts, i, depth, q, out, kept, look, open, spans, openq, spansq),
    decreases parts.len() - i, 0nat,
{
    let last = weighed_from(parts, i, open, spans)->Ok_0;
    let qf = laid(parts, last, i, depth, q, look);
    lemma_one_line(parts, i, depth, q, out, look, open, spans);
    lemma_step(parts, i, open, spans);
    let (inner, q2, out2) = next_line(parts, i, depth, q, out, look);
    let (open2, spans2) = after_piece(parts, i, open, spans);
    let part = rewritten(parts[i], look.newline);
    let own = seq![part];
    let at = if parts[i] is Close {
        (depth - 1) as nat
    } else {
        depth
    };
    let a = lead(q, at, look);
    assert(q2 == q + a + own);
    assert(relaid(parts, last, i, depth, q, look) == relaid(parts, last, i + 1, inner, q2, look));
    lemma_in_place(parts, last, i + 1, inner, q, a, own, look);
    lemma_over_lead(qf, q, at, depth, out, kept, look, openq, spansq);
    let k = (q.len() + a.len()) as int;
    assert(own[0] == part);
    assert(qf[k + 0] == part);
    lemma_tag(parts, i, look);
    lemma_preserves(parts[i].text(), look.newline);
    if parts[i] is Open {
        if preserves(parts[i].text()) {
            lemma_space_is_kept(parts, i + 1, open2, spans2, open2.len() - 1);
        }
    }
    if parts[i] is Close {
        assert(openq[openq.len() - 1].name == open[open.len() - 1].name);
    }
    lemma_goes_on(qf, k, openq, spansq);
    let (openq2, spansq2) = after_piece(qf, k, openq, spansq);
    assert(spansq2 == spansq);
    assert(twin(open2, openq2)) by {
        assert forall|b: int| 0 <= b < open2.len() implies {
            &&& open2[b].name == (#[trigger] openq2[b]).name
            &&& !openq2[b].space
            &&& !openq2[b].text
            &&& !openq2[b].spaces
        } by {
            if b < openq.len() {
                assert(openq2[b].name == openq[b].name);
                assert(open2[b].name == open[b].name);
            }
        }
    }
    assert(clear(openq2, spansq2)) by {
        assert forall|b: int| 0 <= b < openq2.len() implies spansq2[(
        #[trigger] openq2[b]).start] is None by {
            if b < openq.len() {
                assert(openq2[b].start == openq[b].start);
            }
        }
    }
    assert(q2.len() == k + 1);
    lemma_again(parts, i + 1, inner, q2, out2, kept, look, open2, spans2, openq2, spansq2);
    let again = weighed_from(qf, k, openq, spansq)->Ok_0;
    assert(clear(openq, again)) by {
        assert forall|b: int| 0 <= b < openq.len() implies again[(
        #[trigger] openq[b]).start] is None by {
            if b < openq2.len() {
                assert(openq2[b].start == openq[b].start);
            } else {
                let j = openq[b].start;
                assert forall|c: int| 0 <= c < openq2.len() implies (
                #[trigger] openq2[c]).start != j by {
                    assert(openq[c].start < openq[b].start);
                }
                lemma_settled(qf, k + 1, openq2, spansq2, j);
            }
        }
    }
    lemma_line(q, out, at, parts[i].text(), own, look);
    if parts[i] is Open {
        assert(openq2[openq2.len() - 1].start == k);
        assert(again[k] is None);
        lemma_long_again(parts, i, inner, q2, look, open2, spans2);
        assert(short(qf, k) is None);
    } else {
        lemma_not_kept(qf, k, openq, spansq);
    }
    assert(lines_from(qf, again, k, depth, out, kept, look) == lines_from(
        qf,
        again,
        k + 1,
        inner,
        out2,
        kept,
        look,
    ));
}

proof fn lemma_again(
    parts: Seq<Part>,
    i: int,
    depth: nat,
    q: Seq<Part>,
    out: Seq<char>,
    kept: Seq<Kept>,
    look: Look,
    open: Seq<Opened>,
    spans: Seq<Span>,
    openq: Seq<Opened>,
    spansq: Seq<Span>,
)
    requires
        in_step(parts, i, depth, q, out, look, open, spans, openq, spansq),
    ensures
        same_again(parts, i, depth, q, out, kept, look, open, spans, openq, spansq),
    decreases parts.len() - i, 1nat,
{
    let last = weighed_from(parts, i, open, spans)->Ok_0;
    let qf = laid(parts, last, i, depth, q, look);
    if i >= parts.len() {
        let k = q.len() as int;
        lemma_newline(look.newline);
        assert(qf[k] == Part::Text(look.newline));
        lemma_goes_on(qf, k, openq, spansq);
        assert(openq.len() == 0);
        assert(weighed_from(qf, k, openq, spansq) is Ok);
        lemma_not_kept(qf, k, openq, spansq);
        let again = weighed_from(qf, k, openq, spansq)->Ok_0;
        assert(lines_from(qf, again, k + 1, depth, out, kept, look) == (out, kept));
        assert(lines_from(qf, again, k, depth, out, kept, look) == (out, kept));
    } else if last[i] is Some {
        lemma_kept_again(parts, i, depth, q, out, kept, look, open, spans, openq, spansq);
    } else if parts[i] is Open && short(parts, i) is Some {
        lemma_one_line_again(parts, i, depth, q, out, kept, look, open, spans, openq, spansq);
    } else if parts[i] is Text {
        lemma_one_line(parts, i, depth, q, out, look, open, spans);
        let (open2, spans2) = after_piece(parts, i, open, spans);
        assert(twin(open2, openq)) by {
            assert forall|b: int| 0 <= b < open2.len() implies {
                &&& open2[b].name == (#[trigger] openq[b]).name
                &&& !openq[b].space
                &&& !openq[b].text
                &&& !openq[b].spaces
            } by {
                assert(open2[b].name == open[b].name);
            }
        }
        assert(laid(parts, last, i + 1, depth, q, look) == qf);
        lemma_again(parts, i + 1, depth, q, out, kept, look, open2, spans2, openq, spansq);
    } else {
        lemma_one_again(parts, i, depth, q, out, kept, look, open, spans, openq, spansq);
    }
}

proof fn lemma_twin_marked(open: Seq<Opened>, openq: Seq<Opened>, spansq: Seq<Span>)
    requires
        twin(open, openq),
    ensures
        twin(marked(open), marked(openq)),
        marked(open).len() == open.len(),
        clear(marked(openq), spansq) == clear(openq, spansq),
{
    let m = marked(openq);
    assert forall|b: int| 0 <= b < m.len() implies {
        &&& marked(open)[b].name == (#[trigger] m[b]).name
        &&& !m[b].space
        &&& !m[b].text
        &&& !m[b].spaces
    } by {
        assert(openq[b].name == m[b].name);
        assert(open[b].name == marked(open)[b].name);
    }
    assert(forall|b: int| 0 <= b < m.len() ==> (#[trigger] m[b]).start == openq[b].start);
    assert(forall|b: int| 0 <= b < m.len() ==> m[b].start == (#[trigger] openq[b]).start);
}

#[verifier::rlimit(40)]
proof fn lemma_kept_again(
    parts: Seq<Part>,
    i: int,
    depth: nat,
    q: Seq<Part>,
    out: Seq<char>,
    kept: Seq<Kept>,
    look: Look,
    open: Seq<Opened>,
    spans: Seq<Span>,
    openq: Seq<Opened>,
    spansq: Seq<Span>,
)
    requires
        i < parts.len(),
        in_step(parts, i, depth, q, out, look, open, spans, openq, spansq),
        weighed_from(parts, i, open, spans)->Ok_0[i] is Some,
    ensures
        same_again(parts, i, depth, q, out, kept, look, open, spans, openq, spansq),
    decreases parts.len() - i, 0nat,
{
    let last = weighed_from(parts, i, open, spans)->Ok_0;
    let qf = laid(parts, last, i, depth, q, look);
    let (more, why) = last[i]->0;
    let spans9 = lemma_kept_line(parts, i, depth, q, out, look, open, spans);
    let group = rewritten_all(parts, i, more + 1, look);
    let a = lead(q, depth, look);
    let q2 = q + a + group;
    let content = joined(parts, i, more + 1);
    let out2 = with_line(out, depth, content, look);
    let m = i + more;
    assert(relaid(parts, last, i, depth, q, look) == relaid(parts, last, m + 1, depth, q2, look));
    lemma_in_place(parts, last, m + 1, depth, q, a, group, look);
    lemma_over_lead(qf, q, depth, depth, out, kept, look, openq, spansq);
    let k = (q.len() + a.len()) as int;
    let delta = k - i;
    assert forall|j: int| i <= j <= m implies qf[j + delta] == rewritten(
        #[trigger] parts[j],
        look.newline,
    ) by {
        assert(group[j - i] == rewritten(parts[i + (j - i)], look.newline));
        assert(qf[k + (j - i)] == group[j - i]);
    }
    // Into the element on both sides, over what is in it, and out of it.
    assert(qf[i + delta] == rewritten(parts[i], look.newline));
    lemma_tag(parts, i, look);
    lemma_preserves(parts[i].text(), look.newline);
    lemma_step(parts, i, open, spans);
    lemma_goes_on(qf, k, openq, spansq);
    let (open2, spans2) = after_piece(parts, i, open, spans);
    let (openq2, spansq2) = after_piece(qf, k, openq, spansq);
    let n = open.len() as int;
    assert(open2[n].start == i);
    assert(openq2[n].start == k);
    assert(shifted(open2, openq2, n, delta));
    let (spans3, spansq3) = lemma_copy(
        parts,
        qf,
        i + 1,
        delta,
        n,
        look,
        open2,
        spans2,
        openq2,
        spansq2,
    );
    let open3 = marked(open);
    let openq3 = marked(openq);
    assert(open2.subrange(0, n) =~= open3);
    assert(openq2.subrange(0, n) =~= openq3);
    assert(clear(openq, spansq3)) by {
        assert forall|b: int| 0 <= b < openq.len() implies spansq3[(
        #[trigger] openq[b]).start] is None by {
            assert(spansq3[openq[b].start] == spansq2[openq[b].start]);
        }
    }
    lemma_twin_marked(open, openq, spansq3);
    assert(q2.len() == m + 1 + delta);
    lemma_again(
        parts,
        m + 1,
        depth,
        q2,
        out2,
        kept.push(why),
        look,
        open3,
        spans3,
        openq3,
        spansq3,
    );
    let again = weighed_from(qf, k, openq, spansq)->Ok_0;
    lemma_twin_marked(open, openq, again);
    // What is kept of it.
    assert(!opened_at(open3, i)) by {
        assert forall|b: int| 0 <= b < open3.len() implies (#[trigger] open3[b]).start != i by {
            assert(open3[b].start == open[b].start);
        }
    }
    assert(!opened_at(openq3, k)) by {
        assert forall|b: int| 0 <= b < openq3.len() implies (#[trigger] openq3[b]).start != k by {
            assert(openq3[b].start == openq[b].start);
        }
    }
    lemma_settled(parts, m + 1, open3, spans3, i);
    lemma_settled(qf, m + 1 + delta, openq3, spansq3, k);
    assert(again[k] == last[i]);
    // The line.
    lemma_same_joined(parts, i, more + 1, qf, k, look);
    lemma_rewritten_all(parts, i, more + 1, look);
    assert(lines_from(qf, again, k, depth, out, kept, look) == lines_from(
        qf,
        again,
        k + more + 1,
        depth,
        out2,
        kept.push(why),
        look,
    ));
}

/// The same pieces have the same text wherever they stand.
proof fn lemma_same_joined(parts: Seq<Part>, i: int, n: nat, qf: Seq<Part>, k: int, look: Look)
    requires
        0 <= i,
        0 <= k,
        i + n <= parts.len(),
        forall|j: int|
            i <= j < i + n ==> qf[j + (k - i)] == rewritten(#[trigger] parts[j], look.newline),
    ensures
        joined(qf, k, n) == tail(rewritten_all(parts, i, n, look), 0),
    decreases n,
{
    let all = rewritten_all(parts, i, n, look);
    if n == 0 {
        assert(all.len() == 0);
        assert(tail(all, 0) =~= joined(qf, k, n));
    } else {
        let m = (n - 1) as nat;
        lemma_same_joined(parts, i, m, qf, k, look);
        let part = parts[i + m];
        assert(qf[i + m + (k - i)] == rewritten(part, look.newline));
        assert(all =~= rewritten_all(parts, i, m, look).push(rewritten(part, look.newline)));
        lemma_tail_push(rewritten_all(parts, i, m, look), rewritten(part, look.newline), 0);
        assert(joined(qf, k, n) =~= tail(all, 0));
    }
}

#[verifier::rlimit(40)]
proof fn lemma_one_line_again(
    parts: Seq<Part>,
    i: int,
    depth: nat,
    q: Seq<Part>,
    out: Seq<char>,
    kept: Seq<Kept>,
    look: Look,
    open: Seq<Opened>,
    spans: Seq<Span>,
    openq: Seq<Opened>,
    spansq: Seq<Span>,
)
    requires
        i < parts.len(),
        in_step(parts, i, depth, q, out, look, open, spans, openq, spansq),
        weighed_from(parts, i, open, spans)->Ok_0[i] is None,
        parts[i] is Open,
        short(parts, i) is Some,
    ensures
        same_again(parts, i, depth, q, out, kept, look, open, spans, openq, spansq),
    decreases parts.len() - i, 0nat,
{
    let last = weighed_from(parts, i, open, spans)->Ok_0;
    let qf = laid(parts, last, i, depth, q, look);
    let (inner, end) = short(parts, i)->0;
    let spans3 = lemma_short_line(parts, i, depth, q, out, look, open, spans);
    lemma_short_group(parts, i, look);
    let group = short_group(parts, i, look);
    let a = lead(q, depth, look);
    let q2 = q + a + group;
    let content = parts[i].text() + inner + parts[end].text();
    let out2 = with_line(out, depth, content, look);
    assert(relaid(parts, last, i, depth, q, look) == relaid(parts, last, end + 1, depth, q2, look));
    lemma_in_place(parts, last, end + 1, depth, q, a, group, look);
    lemma_over_lead(qf, q, depth, depth, out, kept, look, openq, spansq);
    let k = (q.len() + a.len()) as int;
    lemma_short_again(parts, i, qf, k, look);
    // Into the element, over what is in it, and out of it.
    lemma_tag(parts, i, look);
    lemma_tag(parts, end, look);
    lemma_preserves(parts[i].text(), look.newline);
    lemma_step(parts, i, open, spans);
    let (open2, spans2) = after_piece(parts, i, open, spans);
    assert(open2[open2.len() - 1].start == i);
    if preserves(parts[i].text()) {
        lemma_space_is_kept(parts, i + 1, open2, spans2, open2.len() - 1);
    }
    assert(group[0] == rewritten(parts[i], look.newline));
    assert(qf[k + 0] == group[0]);
    lemma_goes_on(qf, k, openq, spansq);
    let (openq2, spansq2) = after_piece(qf, k, openq, spansq);
    let close = k + group.len() - 1;
    let back = rewritten(parts[end], look.newline);
    assert(group[group.len() - 1] == back);
    assert(qf[k + (group.len() - 1)] == back);
    if inner.len() > 0 {
        assert(group[1] == Part::Whole(inner));
        assert(qf[k + 1] == group[1]);
        lemma_goes_on(qf, k + 1, openq2, spansq2);
        assert(close == k + 2);
    } else {
        assert(close == k + 1);
    }
    assert(sound(qf, close, openq2, spansq2));
    assert(weighed_from(qf, close, openq2, spansq2) == weighed_from(qf, k, openq, spansq));
    lemma_goes_on(qf, close, openq2, spansq2);
    let (openq3, spansq3) = after_piece(qf, close, openq2, spansq2);
    assert(openq3 =~= marked(openq));
    assert(spansq3 == spansq);
    lemma_twin_marked(open, openq, spansq);
    assert(q2.len() == close + 1);
    lemma_again(
        parts,
        end + 1,
        depth,
        q2,
        out2,
        kept,
        look,
        marked(open),
        spans3,
        openq3,
        spansq3,
    );
    let again = weighed_from(qf, k, openq, spansq)->Ok_0;
    lemma_twin_marked(open, openq, again);
    assert(!opened_at(openq3, k)) by {
        assert forall|b: int| 0 <= b < openq3.len() implies (#[trigger] openq3[b]).start != k by {
            assert(openq3[b].start == openq[b].start);
        }
    }
    lemma_settled(qf, close + 1, openq3, spansq3, k);
    assert(again[k] is None);
    assert(qf[k].text() + inner + qf[close].text() == norm(content, look.newline)) by {
        let front = rewritten(parts[i], look.newline);
        lemma_tail_both(seq![front] + inner_part(inner), seq![back]);
        lemma_tail_both(seq![front], inner_part(inner));
        lemma_tail_one(front);
        lemma_tail_one(back);
        if inner.len() > 0 {
            lemma_tail_one(Part::Whole(inner));
        } else {
            assert(tail(inner_part(inner), 0) =~= inner);
        }
    }
    assert(lines_from(qf, again, k, depth, out, kept, look) == lines_from(
        qf,
        again,
        close + 1,
        depth,
        out2,
        kept,
        look,
    ));
}

/// What was laid out once stays as it is when it is laid out again, and the same elements
/// are kept.
pub proof fn xml_layout_is_settled(text: Seq<char>, look: Look)
    requires
        is_newline(look.newline),
        blank(look.indent),
    ensures
        xml_outcome(text, look) matches Ok((out, kept)) ==> xml_outcome(out, look)
            == xml_outcome(text, look),
{
    if let Ok(parts) = cut(text) {
        if let Ok(last) = weighed(parts) {
            lemma_cut(text, Seq::empty());
            lemma_well_made(parts);
            let none = Seq::new(parts.len(), |i: int| None::<(nat, Kept)>);
            let q = Seq::<Part>::empty();
            let out = Seq::<char>::empty();
            let open = Seq::<Opened>::empty();
            let kept = Seq::<Kept>::empty();
            lemma_kept_open(parts, 0, open, none);
            assert(tail(q, 0) == out);
            assert(under_way(parts, 0, q, out, look, open, none));
            let r = relaid(parts, last, 0, 0, q, look);
            let qf = laid(parts, last, 0, 0, q, look);
            let noneq = Seq::new(qf.len(), |i: int| None::<(nat, Kept)>);
            lemma_relaid(parts, 0, 0, q, out, kept, look, open, none);
            lemma_again(parts, 0, 0, q, out, kept, look, open, none, open, noneq);
            let lines = lines_from(parts, last, 0, 0, out, kept, look);
            // The text that comes out is cut into those pieces.
            let end = seq![Part::Text(look.newline)];
            assert(qf =~= r + end);
            lemma_newline(look.newline);
            assert(clean(end)) by {
                lemma_lead(false, 0, look);
                assert(lead_text(false, 0, look) =~= look.newline);
            }
            lemma_clean_both(r, end);
            lemma_tail_both(r, end);
            lemma_tail_one(Part::Text(look.newline));
            assert(tail(qf, 0) == lines.0 + look.newline);
            lemma_cut_clean(qf, 0, q);
            assert(q + qf.subrange(0, qf.len() as int) =~= qf);
            assert(cut(lines.0 + look.newline) == Ok::<Seq<Part>, Seq<char>>(qf));
        }
    }
}

} // verus!
