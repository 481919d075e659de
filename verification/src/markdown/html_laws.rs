//! What a preview shows of HTML.

use crate::markdown::html::{decoded, leading_name, shown, shown_from, slug_to, slugged, tag_shows,
    HtmlPartView};
use crate::text::{blank, first, lemma_first, lower_ascii, starts};
use vstd::prelude::*;

verus! {

/// Text with no tag in it is shown as it is, its entities decoded; nothing is shown of white
/// space alone.
pub proof fn text_is_shown(s: Seq<char>)
    requires
        !s.contains('<'),
    ensures
        shown(s) == if blank(decoded(s)) {
            Seq::<HtmlPartView>::empty()
        } else {
            seq![HtmlPartView::Text(decoded(s))]
        },
{
    lemma_first(s, '<', 0);
    if first(s, '<', 0) < s.len() {
        assert(s.contains(s[first(s, '<', 0)]));
    }
    assert(Seq::<HtmlPartView>::empty().push(HtmlPartView::Text(decoded(s))) =~= seq![
        HtmlPartView::Text(decoded(s)),
    ]);
}

proof fn lemma_first_at(s: Seq<char>, c: char, from: int, at: int)
    requires
        0 <= from <= at < s.len(),
        s[at] == c,
        forall|k: int| from <= k < at ==> s[k] != c,
    ensures
        first(s, c, from) == at,
    decreases at - from,
{
    if from < at {
        lemma_first_at(s, c, from + 1, at);
    }
}

/// A tag is not shown, and neither is anything inside it: what is behind it is read on. A
/// `<br>` breaks the line, and an image shows what stands for it.
pub proof fn tags_are_not_shown(inside: Seq<char>, rest: Seq<char>, done: Seq<HtmlPartView>)
    requires
        !inside.contains('>'),
        inside.len() > 0,
        inside[0] != '!',
    ensures
        shown_from(seq!['<'] + inside + seq!['>'] + rest, done) == shown_from(
            rest,
            match tag_shows(inside) {
                Some(part) => done.push(part),
                None => done,
            },
        ),
        tag_shows(inside) == Some(HtmlPartView::Break) <==> leading_name(inside) == "br"@,
        tag_shows(inside) is Some ==> leading_name(inside) == "br"@ || leading_name(inside)
            == "img"@,
{
    let s = seq!['<'] + inside + seq!['>'] + rest;
    reveal_strlit("<!--");
    reveal_strlit("br");
    reveal_strlit("img");
    assert(s[0] == '<');
    lemma_first_at(s, '<', 0, 0);
    assert(s.subrange(0, 0) =~= Seq::empty());
    lemma_nothing_decoded();
    assert(s.subrange(0, s.len() as int) =~= s);
    assert(s[1] == inside[0]);
    assert(!starts(s, "<!--"@));
    let close = inside.len() as int + 1;
    assert(s[close] == '>');
    assert forall|k: int| 0 <= k < close implies s[k] != '>' by {
        if k > 0 {
            assert(s[k] == inside[k - 1]);
            assert(inside.contains(inside[k - 1]));
        }
    }
    lemma_first_at(s, '>', 0, close);
    assert(s.subrange(1, close) =~= inside);
    assert(s.subrange(close + 1, s.len() as int) =~= rest);
    if leading_name(inside) == "img"@ {
        assert("img"@.len() != "br"@.len());
    }
}

/// Nothing stands for nothing.
proof fn lemma_nothing_decoded()
    ensures
        decoded(Seq::<char>::empty()) == Seq::<char>::empty(),
        blank(Seq::<char>::empty()),
{
    let none = Seq::<char>::empty();
    assert(decoded(none) =~= none);
}

/// The anchor of a heading has a small letter for every letter, a hyphen for every space, and
/// nothing for a mark of punctuation, one character after the other.
pub proof fn an_anchor_reads_its_heading(heading: Seq<char>, c: char)
    ensures
        slug_to(heading.push(c), heading.len() + 1) == slug_to(heading, heading.len()) + slugged(c),
        c == ' ' ==> slugged(c) == seq!['-'],
        'a' <= c <= 'z' || '0' <= c <= '9' || c == '-' || c == '_' ==> slugged(c) == seq![c],
        'A' <= c <= 'Z' ==> slugged(c) == seq![lower_ascii(c)],
        c == '.' || c == ',' || c == '!' || c == '?' || c == ':' || c == '`' ==> slugged(c).len()
            == 0,
{
    lemma_slug_same(heading, heading.push(c), heading.len());
}

proof fn lemma_slug_same(a: Seq<char>, b: Seq<char>, n: nat)
    requires
        n <= a.len(),
        n <= b.len(),
        forall|i: int| 0 <= i < n ==> #[trigger] a[i] == b[i],
    ensures
        slug_to(a, n) == slug_to(b, n),
    decreases n,
{
    if n > 0 {
        lemma_slug_same(a, b, (n - 1) as nat);
        assert(a[n - 1] == b[n - 1]);
    }
}

} // verus!
