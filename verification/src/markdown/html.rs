//! What a preview shows of HTML, and the anchors of headings.

use crate::text::{alnum_ascii, alphanumeric, append_str, blank, chars, find, find_text, first,
    found, is, is_alnum_ascii, is_alphanumeric, is_ascii, is_blank, is_space, lemma_first,
    lemma_found, lower_ascii, lowercase_of, matches_at, replace, replaced, same, stands_at, starts,
    starts_with, string, to_lower_ascii, to_lowercase, trim, trim_start, trimmed, trimmed_start,
    whitespace};
use vstd::prelude::*;
use vstd::slice::slice_subrange;

verus! {

/// What a piece of HTML shows once its tags are gone.
#[derive(Debug, PartialEq)]
pub enum HtmlPart {
    Text(String),
    Image(String),
    Break,
}

/// A part by its characters.
#[verifier::ext_equal]
pub enum HtmlPartView {
    Text(Seq<char>),
    Image(Seq<char>),
    Break,
}

impl DeepView for HtmlPart {
    type V = HtmlPartView;

    open spec fn deep_view(&self) -> HtmlPartView {
        match self {
            HtmlPart::Text(text) => HtmlPartView::Text(text@),
            HtmlPart::Image(alt) => HtmlPartView::Image(alt@),
            HtmlPart::Break => HtmlPartView::Break,
        }
    }
}

/// The text with the entities a page is most often written with as the characters they
/// stand for.
pub open spec fn decoded(s: Seq<char>) -> Seq<char> {
    let s = replaced(s, "&nbsp;"@, " "@);
    let s = replaced(s, "&lt;"@, "<"@);
    let s = replaced(s, "&gt;"@, ">"@);
    let s = replaced(s, "&quot;"@, "\""@);
    let s = replaced(s, "&#39;"@, "'"@);
    replaced(s, "&amp;"@, "&"@)
}

pub fn decode_entities(s: &[char]) -> (r: Vec<char>)
    ensures
        r@ == decoded(s@),
{
    proof {
        reveal_strlit("&nbsp;");
        reveal_strlit("&lt;");
        reveal_strlit("&gt;");
        reveal_strlit("&quot;");
        reveal_strlit("&#39;");
        reveal_strlit("&amp;");
    }
    let s: Vec<char> = replace(s, "&nbsp;", " ");
    let s: Vec<char> = replace(s.as_slice(), "&lt;", "<");
    let s: Vec<char> = replace(s.as_slice(), "&gt;", ">");
    let s: Vec<char> = replace(s.as_slice(), "&quot;", "\"");
    let s: Vec<char> = replace(s.as_slice(), "&#39;", "'");
    replace(s.as_slice(), "&amp;", "&")
}

/// Whether a character can be part of an attribute's name: all but white space, a quote, `/`,
/// `=` and `>`.
pub open spec fn is_name_char(c: char) -> bool {
    !is_space(c) && c != '"' && c != '\'' && c != '/' && c != '=' && c != '>'
}

fn name_char(c: char) -> (r: bool)
    ensures
        r == is_name_char(c),
{
    !whitespace(c) && c != '"' && c != '\'' && c != '/' && c != '=' && c != '>'
}

/// Where an attribute is written from `i` on: its name, the `=` and the quote in `key`, not
/// behind more of a name, so no name that only ends in it is taken for it.
pub open spec fn attribute_at(tag: Seq<char>, key: Seq<char>, i: int) -> Option<int>
    decreases tag.len() - i,
{
    if i >= tag.len() {
        None
    } else if stands_at(tag, key, i) && (i == 0 || !is_name_char(tag[i - 1])) {
        Some(i)
    } else {
        attribute_at(tag, key, i + 1)
    }
}

/// The value after `name=` and `quote`, up to the next `quote` or the end; none where the
/// attribute is not written so.
pub open spec fn quoted(tag: Seq<char>, name: Seq<char>, quote: char) -> Option<Seq<char>> {
    let key = name + seq!['=', quote];
    match attribute_at(tag, key, 0) {
        Some(at) => {
            let start = at + key.len();
            Some(decoded(tag.subrange(start, first(tag, quote, start))))
        },
        None => None,
    }
}

/// The value of `name="…"`, or with single quotes, inside a tag; empty when absent.
pub open spec fn attribute(tag: Seq<char>, name: Seq<char>) -> Seq<char> {
    match quoted(tag, name, '"') {
        Some(value) => value,
        None => match quoted(tag, name, '\'') {
            Some(value) => value,
            None => Seq::empty(),
        },
    }
}

fn quoted_value(tag: &[char], name: &str, quote: char) -> (r: Option<Vec<char>>)
    ensures
        match r {
            Some(value) => quoted(tag@, name@, quote) == Some(value@),
            None => quoted(tag@, name@, quote) is None,
        },
{
    let mut key: Vec<char> = chars(name);
    key.push('=');
    key.push(quote);
    proof {
        assert(key@ =~= name@ + seq!['=', quote]);
        assert(tag.len() == tag@.len());
    }
    let mut i: usize = 0;
    while i < tag.len()
        invariant
            i <= tag@.len(),
            key@ == name@ + seq!['=', quote],
            attribute_at(tag@, key@, 0) == attribute_at(tag@, key@, i as int),
        decreases tag@.len() - i,
    {
        if (i == 0 || !name_char(tag[i - 1])) && matches_at(tag, key.as_slice(), i) {
            let start: usize = i + key.len();
            let end: usize = find(tag, quote, start);
            return Some(decode_entities(slice_subrange(tag, start, end)));
        }
        i = i + 1;
    }
    None
}

pub fn html_attribute(tag: &[char], name: &str) -> (r: Vec<char>)
    ensures
        r@ == attribute(tag@, name@),
{
    match quoted_value(tag, name, '"') {
        Some(value) => value,
        None => match quoted_value(tag, name, '\'') {
            Some(value) => value,
            None => Vec::new(),
        },
    }
}

/// The letters and digits a text begins with.
pub open spec fn leading_name(s: Seq<char>) -> Seq<char>
    decreases s.len(),
{
    if s.len() > 0 && is_alnum_ascii(s[0]) {
        seq![lower_ascii(s[0])] + leading_name(s.subrange(1, s.len() as int))
    } else {
        Seq::empty()
    }
}

/// What a tag shows, its angles not included.
pub open spec fn tag_shows(inside: Seq<char>) -> Option<HtmlPartView> {
    if leading_name(inside) == "br"@ {
        Some(HtmlPartView::Break)
    } else if leading_name(inside) == "img"@ {
        Some(HtmlPartView::Image(attribute(inside, "alt"@)))
    } else {
        None
    }
}

/// `done`, with the text `s` shows where it is not blank.
pub open spec fn with_text(done: Seq<HtmlPartView>, s: Seq<char>) -> Seq<HtmlPartView> {
    if blank(decoded(s)) {
        done
    } else {
        done.push(HtmlPartView::Text(decoded(s)))
    }
}

/// `done`, then what `rest` shows: the text between tags, the alt of each image and where
/// a `<br>` breaks the line. Comments and every other tag are dropped; so is what follows
/// a tag or a comment that is never closed.
pub open spec fn shown_from(rest: Seq<char>, done: Seq<HtmlPartView>) -> Seq<HtmlPartView>
    decreases rest.len(),
    via shown_advances
{
    let open = first(rest, '<', 0);
    if open == rest.len() {
        with_text(done, rest)
    } else {
        let before = with_text(done, rest.subrange(0, open));
        let tag = rest.subrange(open, rest.len() as int);
        if starts(tag, "<!--"@) {
            match found(tag, "-->"@, 4) {
                Some(end) => shown_from(tag.subrange(end + 3, tag.len() as int), before),
                None => before,
            }
        } else {
            let close = first(tag, '>', 0);
            if close == tag.len() {
                before
            } else {
                let after = match tag_shows(tag.subrange(1, close)) {
                    Some(part) => before.push(part),
                    None => before,
                };
                shown_from(tag.subrange(close + 1, tag.len() as int), after)
            }
        }
    }
}

#[via_fn]
proof fn shown_advances(rest: Seq<char>, done: Seq<HtmlPartView>) {
    reveal_strlit("-->");
    lemma_first(rest, '<', 0);
    let open = first(rest, '<', 0);
    if open < rest.len() {
        let tag = rest.subrange(open, rest.len() as int);
        lemma_found(tag, "-->"@, 4);
        lemma_first(tag, '>', 0);
    }
}

/// What a text of HTML shows.
pub open spec fn shown(html: Seq<char>) -> Seq<HtmlPartView> {
    shown_from(html, Seq::empty())
}

fn read_name(s: &[char]) -> (r: Vec<char>)
    ensures
        r@ == leading_name(s@),
{
    let mut out: Vec<char> = Vec::new();
    let mut i: usize = 0;
    proof {
        assert(s@.subrange(0, s@.len() as int) =~= s@);
        assert(Seq::<char>::empty() + leading_name(s@) =~= leading_name(s@));
    }
    while i < s.len() && alnum_ascii(s[i])
        invariant
            i <= s@.len(),
            leading_name(s@) == out@ + leading_name(s@.subrange(i as int, s@.len() as int)),
        decreases s@.len() - i,
    {
        let ghost before = out@;
        let ghost rest = s@.subrange(i as int, s@.len() as int);
        out.push(to_lower_ascii(s[i]));
        i = i + 1;
        proof {
            assert(rest.subrange(1, rest.len() as int) =~= s@.subrange(i as int, s@.len() as int));
            assert(out@ + leading_name(rest.subrange(1, rest.len() as int)) =~= before
                + leading_name(rest));
        }
    }
    proof {
        assert(out@ + Seq::<char>::empty() =~= out@);
    }
    out
}

fn push_shown(parts: &mut Vec<HtmlPart>, s: &[char])
    ensures
        final(parts).deep_view() == with_text(old(parts).deep_view(), s@),
{
    let ghost before = parts.deep_view();
    let text: Vec<char> = decode_entities(s);
    if !is_blank(text.as_slice()) {
        parts.push(HtmlPart::Text(string(text.as_slice())));
        proof {
            assert(parts.deep_view() =~= before.push(HtmlPartView::Text(text@)));
        }
    }
}

/// Reads HTML the little a preview needs: the text between tags, the alt of each image
/// and where a `<br>` breaks the line. Comments and every other tag are dropped.
pub fn read_html(html: &[char]) -> (r: Vec<HtmlPart>)
    ensures
        r.deep_view() == shown(html@),
{
    let mut parts: Vec<HtmlPart> = Vec::new();
    let mut rest: &[char] = html;
    let comment_end: Vec<char> = chars("-->");
    proof {
        reveal_strlit("-->");
        assert(parts.deep_view() =~= Seq::empty());
    }
    loop
        invariant
            shown(html@) == shown_from(rest@, parts.deep_view()),
            comment_end@ == "-->"@,
            comment_end@.len() == 3,
        decreases rest@.len(),
    {
        let open: usize = find(rest, '<', 0);
        if open == rest.len() {
            push_shown(&mut parts, rest);
            return parts;
        }
        push_shown(&mut parts, slice_subrange(rest, 0, open));
        let tag: &[char] = slice_subrange(rest, open, rest.len());
        if starts_with(tag, "<!--") {
            match find_text(tag, comment_end.as_slice(), 4) {
                Some(end) => {
                    proof {
                        assert(tag.len() == tag@.len());
                    }
                    rest = slice_subrange(tag, end + 3, tag.len());
                },
                None => {
                    return parts;
                },
            }
        } else {
            let close: usize = find(tag, '>', 0);
            if close == tag.len() {
                return parts;
            }
            proof {
                assert(tag@[0] == '<');
            }
            let inside: &[char] = slice_subrange(tag, 1, close);
            let name: Vec<char> = read_name(inside);
            let ghost before = parts.deep_view();
            if is(name.as_slice(), "br") {
                parts.push(HtmlPart::Break);
                proof {
                    assert(parts.deep_view() =~= before.push(HtmlPartView::Break));
                }
            } else if is(name.as_slice(), "img") {
                let alt: Vec<char> = html_attribute(inside, "alt");
                parts.push(HtmlPart::Image(string(alt.as_slice())));
                proof {
                    assert(parts.deep_view() =~= before.push(HtmlPartView::Image(alt@)));
                }
            }
            rest = slice_subrange(tag, close + 1, tag.len());
        }
    }
}

// ---------------------------------------------------------------------------------------
// Anchors
// ---------------------------------------------------------------------------------------

/// Whether a character of a heading stands in its anchor: a letter or a digit, a space, a
/// hyphen or an underscore.
pub open spec fn in_slug(c: char) -> bool {
    is_alnum_ascii(c) || (!is_ascii(c) && alphanumeric(c)) || c == ' ' || c == '-' || c == '_'
}

/// What an anchor has for a character of its heading: a hyphen for a space, small letters for
/// a capital.
pub open spec fn slugged(c: char) -> Seq<char> {
    if !in_slug(c) {
        Seq::empty()
    } else if c == ' ' {
        seq!['-']
    } else if is_ascii(c) {
        seq![lower_ascii(c)]
    } else {
        lowercase_of(seq![c])
    }
}

/// What an anchor has for the first `n` characters of its heading.
pub open spec fn slug_to(heading: Seq<char>, n: nat) -> Seq<char>
    decreases n,
{
    if n == 0 {
        Seq::empty()
    } else {
        slug_to(heading, (n - 1) as nat) + slugged(heading[n - 1])
    }
}

/// A heading's anchor: lower case, a hyphen for each space, the punctuation gone.
pub open spec fn slug_of(heading: Seq<char>) -> Seq<char> {
    slug_to(trimmed(heading), trimmed(heading).len())
}

fn push_slugged(out: &mut Vec<char>, c: char)
    ensures
        final(out)@ == old(out)@ + slugged(c),
{
    if c == ' ' {
        out.push('-');
    } else if c <= '\u{7f}' {
        if alnum_ascii(c) || c == '-' || c == '_' {
            out.push(to_lower_ascii(c));
        }
    } else if is_alphanumeric(c) {
        let mut one: Vec<char> = Vec::new();
        one.push(c);
        let small: String = to_lowercase(string(one.as_slice()).as_str());
        proof {
            assert(one@ =~= seq![c]);
        }
        append_str(out, small.as_str());
    }
    proof {
        assert(out@ =~= old(out)@ + slugged(c));
    }
}

pub fn slug(heading: &[char]) -> (r: Vec<char>)
    ensures
        r@ == slug_of(heading@),
{
    let s: &[char] = trim(heading);
    let mut out: Vec<char> = Vec::new();
    let mut i: usize = 0;
    while i < s.len()
        invariant
            i <= s@.len(),
            out@ == slug_to(s@, i as nat),
        decreases s@.len() - i,
    {
        push_slugged(&mut out, s[i]);
        i = i + 1;
    }
    out
}

/// The text without the `#`s it begins with.
pub open spec fn without_hashes(s: Seq<char>) -> Seq<char>
    decreases s.len(),
{
    if s.len() > 0 && s[0] == '#' {
        without_hashes(s.subrange(1, s.len() as int))
    } else {
        s
    }
}

/// Whether a line is a heading whose anchor is `wanted`.
pub open spec fn names(line: Seq<char>, wanted: Seq<char>) -> bool {
    let line = trimmed_start(line);
    line.len() > 0 && line[0] == '#' && slug_of(without_hashes(line)) == wanted
}

/// The first line from `i` on, counting lines from `number`, whose heading's anchor is
/// `wanted`.
pub open spec fn heading_from(text: Seq<char>, i: int, number: nat, wanted: Seq<char>) -> Option<nat>
    decreases text.len() - i,
    via heading_advances
{
    let end = first(text, '\n', i);
    if i > text.len() {
        None
    } else if names(text.subrange(i, end), wanted) {
        Some(number)
    } else if end >= text.len() {
        None
    } else {
        heading_from(text, end + 1, number + 1, wanted)
    }
}

#[via_fn]
proof fn heading_advances(text: Seq<char>, i: int, number: nat, wanted: Seq<char>) {
    if 0 <= i <= text.len() {
        lemma_first(text, '\n', i);
    } else if i < 0 {
        lemma_first_from_below(text, '\n', i);
    }
}

proof fn lemma_first_from_below(s: Seq<char>, c: char, from: int)
    requires
        from < 0,
    ensures
        from <= first(s, c, from),
    decreases -from,
{
    if s[from] != c {
        if from + 1 < 0 {
            lemma_first_from_below(s, c, from + 1);
        } else {
            lemma_first(s, c, 0);
        }
    }
}

fn is_named(line: &[char], wanted: &[char]) -> (r: bool)
    ensures
        r == names(line@, wanted@),
{
    let line: &[char] = trim_start(line);
    if line.len() == 0 || line[0] != '#' {
        return false;
    }
    let mut i: usize = 0;
    proof {
        assert(line@.subrange(0, line@.len() as int) =~= line@);
    }
    while i < line.len() && line[i] == '#'
        invariant
            i <= line@.len(),
            without_hashes(line@) == without_hashes(line@.subrange(i as int, line@.len() as int)),
        decreases line@.len() - i,
    {
        proof {
            let rest = line@.subrange(i as int, line@.len() as int);
            assert(rest.subrange(1, rest.len() as int) =~= line@.subrange(
                i + 1,
                line@.len() as int,
            ));
        }
        i = i + 1;
    }
    let anchor: Vec<char> = slug(slice_subrange(line, i, line.len()));
    same(anchor.as_slice(), wanted)
}

/// The line of the heading a `#anchor` names, the anchor read as a heading's is.
pub fn heading_line(text: &str, anchor: &str) -> (r: Option<usize>)
    ensures
        match r {
            Some(line) => heading_from(text@, 0, 0, slug_of(anchor@)) == Some(line as nat),
            None => heading_from(text@, 0, 0, slug_of(anchor@)) is None,
        },
{
    let letters: Vec<char> = chars(text);
    let name: Vec<char> = chars(anchor);
    let wanted: Vec<char> = slug(name.as_slice());
    let mut i: usize = 0;
    let mut number: usize = 0;
    loop
        invariant
            number <= i <= letters.len(),
            letters@ == text@,
            wanted@ == slug_of(anchor@),
            heading_from(text@, 0, 0, wanted@) == heading_from(
                text@,
                i as int,
                number as nat,
                wanted@,
            ),
        ensures
            heading_from(text@, 0, 0, wanted@) is None,
        decreases letters@.len() - i,
    {
        let end: usize = find(letters.as_slice(), '\n', i);
        if is_named(slice_subrange(letters.as_slice(), i, end), wanted.as_slice()) {
            return Some(number);
        }
        if end == letters.len() {
            break;
        }
        i = end + 1;
        number = number + 1;
    }
    None
}

} // verus!
