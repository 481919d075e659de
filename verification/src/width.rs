//! How many columns of a terminal a text takes.

use vstd::prelude::*;

verus! {

/// The columns `unicode-width` gives a character; none for a control character.
pub uninterp spec fn width_of(c: char) -> Option<usize>;

/// The columns `unicode-width` gives a text.
pub uninterp spec fn shown_width(s: Seq<char>) -> usize;

/// `UnicodeWidthChar::width` for `char`: at most two columns, from a table of two-bit
/// widths; one for printable ASCII, two for a Han ideograph, whose East Asian width is wide.
#[verifier::external_body]
fn char_width(c: char) -> (r: Option<usize>)
    ensures
        r == width_of(c),
        r matches Some(n) ==> n <= 2,
        ' ' <= c <= '~' ==> r == Some(1usize),
        '\u{4e00}' <= c <= '\u{9fff}' ==> r == Some(2usize),
{
    unicode_width::UnicodeWidthChar::width(c)
}

/// `UnicodeWidthStr::width` for `str`: the sum of the characters' widths, a control
/// character taking none. Only where a U+FE0F stands can it differ from that sum: the
/// character before one may count as an emoji, of two columns. No character takes more, and
/// a U+FE0F takes none itself.
#[verifier::external_body]
pub(crate) fn text_width(text: &str) -> (r: usize)
    ensures
        r == shown_width(text@),
        r == width_of_text(text@),
        r <= 2 * text@.len(),
        text@ == seq!['\u{fe0f}'] ==> r == 0,
{
    unicode_width::UnicodeWidthStr::width(text)
}

/// The columns a character takes: one for printable ASCII, two for a Han ideograph, none where
/// it has no width of its own, and never more than two.
pub open spec fn glyph_columns(c: char) -> nat {
    if ' ' <= c <= '~' {
        1
    } else if '\u{4e00}' <= c <= '\u{9fff}' {
        2
    } else {
        match width_of(c) {
            Some(n) => if n <= 2 {
                n as nat
            } else {
                2
            },
            None => 0,
        }
    }
}

/// A text without the selector that makes emoji wide.
pub open spec fn plain(s: Seq<char>) -> bool {
    !s.contains('\u{fe0f}')
}

/// The columns a text takes: those of its characters together, but where there is an emoji
/// selector in it.
pub open spec fn width_of_text(s: Seq<char>) -> nat {
    if plain(s) {
        columns(s)
    } else {
        shown_width(s) as nat
    }
}

/// The columns the characters of a text take together.
pub open spec fn columns(s: Seq<char>) -> nat
    decreases s.len(),
{
    if s.len() == 0 {
        0
    } else {
        columns(s.drop_last()) + glyph_columns(s.last())
    }
}

/// The columns a character takes.
pub fn glyph_width(c: char) -> (r: usize)
    ensures
        r == glyph_columns(c),
        r <= 2,
        ' ' <= c <= '~' ==> r == 1,
{
    match char_width(c) {
        Some(n) => n,
        None => 0,
    }
}

/// A text takes at most two columns for each of its characters.
pub proof fn columns_are_at_most_two_each(s: Seq<char>)
    ensures
        columns(s) <= 2 * s.len(),
    decreases s.len(),
{
    if s.len() > 0 {
        columns_are_at_most_two_each(s.drop_last());
    }
}

pub proof fn lemma_columns_push(s: Seq<char>, c: char)
    ensures
        columns(s.push(c)) == columns(s) + glyph_columns(c),
{
    assert(s.push(c).drop_last() =~= s);
}

pub proof fn lemma_columns_joined(a: Seq<char>, b: Seq<char>)
    ensures
        columns(a + b) == columns(a) + columns(b),
    decreases b.len(),
{
    if b.len() == 0 {
        assert(a + b =~= a);
    } else {
        lemma_columns_joined(a, b.drop_last());
        assert((a + b).drop_last() =~= a + b.drop_last());
        assert((a + b).last() == b.last());
    }
}

/// A count that stops at the largest machine number.
pub open spec fn capped(n: int) -> usize {
    if n > usize::MAX {
        usize::MAX
    } else {
        n as usize
    }
}

} // verus!
