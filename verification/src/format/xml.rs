//! Laying out XML.
//!
//! A document is cut into its pieces as they are written. Elements whose white space is
//! content are kept whole; the other pieces go one to a line, indented by their depth.

use crate::format::{Formatted, Kept};
use crate::text::{append, append_repeated, append_str, blank, chars, ends, ends_with, find,
    find_text, first, first_space, found, has, ink, is, is_blank, lemma_first, lemma_found,
    lemma_ink_blank, lemma_ink_joined, lemma_ink_one, lemma_skip_space, past_space, repeated, same,
    skip_space, starts, starts_with, string, trim, trimmed, whitespace};
use vstd::prelude::*;
use vstd::slice::slice_subrange;

verus! {

/// One piece of a document as it was written.
#[verifier::ext_equal]
pub enum Part {
    Open { name: Seq<char>, text: Seq<char> },
    Close { name: Seq<char>, text: Seq<char> },
    /// A self-closing element, a comment, a declaration, CDATA, a DOCTYPE.
    Whole(Seq<char>),
    Text(Seq<char>),
}

impl Part {
    pub open spec fn text(self) -> Seq<char> {
        match self {
            Part::Open { text, .. } => text,
            Part::Close { text, .. } => text,
            Part::Whole(text) => text,
            Part::Text(text) => text,
        }
    }

    /// White space between tags: the indentation, not content.
    pub open spec fn is_blank(self) -> bool {
        self matches Part::Text(text) && blank(text)
    }

    pub open spec fn is_cdata(self) -> bool {
        self matches Part::Whole(text) && starts(text, "<![CDATA["@)
    }
}

/// A line break stands in the text.
pub open spec fn breaks(s: Seq<char>) -> bool {
    s.contains('\n') || s.contains('\r')
}

// ---------------------------------------------------------------------------------------
// The pieces
// ---------------------------------------------------------------------------------------

/// Where a tag ends: at the first `>` outside quotes and outside the brackets of a
/// DOCTYPE's internal subset. Nowhere, where another tag begins first.
pub open spec fn tag_end(s: Seq<char>, at: int, quote: Option<char>, brackets: nat) -> Option<int>
    decreases s.len() - at,
{
    if at >= s.len() {
        None
    } else {
        let c = s[at];
        match quote {
            Some(open) => tag_end(
                s,
                at + 1,
                if c == open {
                    None
                } else {
                    quote
                },
                brackets,
            ),
            None => if c == '"' || c == '\'' {
                tag_end(s, at + 1, Some(c), brackets)
            } else if c == '[' {
                tag_end(s, at + 1, None, brackets + 1)
            } else if c == ']' {
                tag_end(
                    s,
                    at + 1,
                    None,
                    if brackets == 0 {
                        0
                    } else {
                        (brackets - 1) as nat
                    },
                )
            } else if c == '>' && brackets == 0 {
                Some(at + 1)
            } else if c == '<' && brackets == 0 {
                None
            } else {
                tag_end(s, at + 1, None, brackets)
            },
        }
    }
}

/// The name of an opening tag: what follows the `<`, up to white space or the `>`.
pub open spec fn open_name(tag: Seq<char>) -> Seq<char> {
    let body = tag.subrange(1, tag.len() - 1);
    body.subrange(0, first_space(body, 0))
}

/// The text without the `>`s at its end.
pub open spec fn without_angles(s: Seq<char>) -> Seq<char>
    decreases s.len(),
{
    if s.len() > 0 && s.last() == '>' {
        without_angles(s.drop_last())
    } else {
        s
    }
}

/// The name of a closing tag: what stands between `</` and `>`.
pub open spec fn close_name(tag: Seq<char>) -> Seq<char> {
    trimmed(without_angles(tag.subrange(2, tag.len() as int)))
}

pub open spec fn unterminated(what: Seq<char>) -> Seq<char> {
    "Not valid XML, left as it was: unterminated "@ + what
}

/// The piece at the start of a text that runs up to and including `end`.
pub open spec fn run_to(s: Seq<char>, end: Seq<char>, what: Seq<char>) -> Result<
    (Part, int),
    Seq<char>,
> {
    match found(s, end, 0) {
        Some(at) => Ok((Part::Whole(s.subrange(0, at + end.len())), at + end.len())),
        None => Err(unterminated(what)),
    }
}

/// The piece that a whole tag is.
pub open spec fn tag_part(tag: Seq<char>) -> Result<Part, Seq<char>> {
    if starts(tag, "<!"@) || ends(tag, "/>"@) {
        Ok(Part::Whole(tag))
    } else if starts(tag, "</"@) {
        Ok(Part::Close { name: close_name(tag), text: tag })
    } else if open_name(tag).len() == 0 {
        Err("Not valid XML, left as it was: a tag with no name"@)
    } else {
        Ok(Part::Open { name: open_name(tag), text: tag })
    }
}

/// The piece of markup at the start of a text, and its length.
pub open spec fn markup(s: Seq<char>) -> Result<(Part, int), Seq<char>> {
    if starts(s, "<!--"@) {
        run_to(s, "-->"@, "comment"@)
    } else if starts(s, "<![CDATA["@) {
        run_to(s, "]]>"@, "CDATA section"@)
    } else if starts(s, "<?"@) {
        run_to(s, "?>"@, "declaration"@)
    } else {
        match tag_end(s, 1, None, 0) {
            None => Err(unterminated("tag"@)),
            Some(end) => match tag_part(s.subrange(0, end)) {
                Ok(part) => Ok((part, end)),
                Err(flaw) => Err(flaw),
            },
        }
    }
}

/// `done`, then the pieces of `rest`.
pub open spec fn cut_from(rest: Seq<char>, done: Seq<Part>) -> Result<Seq<Part>, Seq<char>>
    decreases rest.len(),
    via cut_advances
{
    let lt = first(rest, '<', 0);
    if rest.len() == 0 {
        Ok(done)
    } else if lt == rest.len() {
        Ok(done.push(Part::Text(rest)))
    } else {
        let before = if lt > 0 {
            done.push(Part::Text(rest.subrange(0, lt)))
        } else {
            done
        };
        let at = rest.subrange(lt, rest.len() as int);
        match markup(at) {
            Err(flaw) => Err(flaw),
            Ok((part, length)) => cut_from(
                at.subrange(length, at.len() as int),
                before.push(part),
            ),
        }
    }
}

/// The pieces of a document, in order, character data exactly as written.
pub open spec fn cut(text: Seq<char>) -> Result<Seq<Part>, Seq<char>> {
    cut_from(text, Seq::empty())
}

#[via_fn]
proof fn cut_advances(rest: Seq<char>, done: Seq<Part>) {
    lemma_first(rest, '<', 0);
    let lt = first(rest, '<', 0);
    if lt < rest.len() {
        lemma_markup(rest.subrange(lt, rest.len() as int));
    }
}

pub proof fn lemma_tag_end(s: Seq<char>, at: int, quote: Option<char>, brackets: nat)
    requires
        0 <= at,
    ensures
        tag_end(s, at, quote, brackets) matches Some(end) ==> at < end <= s.len() && s[end - 1]
            == '>',
    decreases s.len() - at,
{
    if at < s.len() {
        let c = s[at];
        match quote {
            Some(open) => lemma_tag_end(
                s,
                at + 1,
                if c == open {
                    None
                } else {
                    quote
                },
                brackets,
            ),
            None => {
                if c == '"' || c == '\'' {
                    lemma_tag_end(s, at + 1, Some(c), brackets);
                }
                lemma_tag_end(s, at + 1, None, brackets + 1);
                lemma_tag_end(s, at + 1, None, brackets);
                if brackets > 0 {
                    lemma_tag_end(s, at + 1, None, (brackets - 1) as nat);
                }
            },
        }
    }
}

pub proof fn lemma_markup(s: Seq<char>)
    requires
        s.len() > 0,
    ensures
        markup(s) matches Ok((part, length)) ==> 0 < length <= s.len() && part.text()
            == s.subrange(0, length) && !(part is Text),
{
    reveal_strlit("-->");
    reveal_strlit("]]>");
    reveal_strlit("?>");
    lemma_found(s, "-->"@, 0);
    lemma_found(s, "]]>"@, 0);
    lemma_found(s, "?>"@, 0);
    lemma_tag_end(s, 1, None, 0);
}

/// One piece of a document, as a stretch of its text.
pub enum Piece<'a> {
    Open { name: &'a [char], text: &'a [char] },
    Close { name: &'a [char], text: &'a [char] },
    Whole(&'a [char]),
    Text(&'a [char]),
}

impl<'a> View for Piece<'a> {
    type V = Part;

    open spec fn view(&self) -> Part {
        match *self {
            Piece::Open { name, text } => Part::Open { name: name@, text: text@ },
            Piece::Close { name, text } => Part::Close { name: name@, text: text@ },
            Piece::Whole(text) => Part::Whole(text@),
            Piece::Text(text) => Part::Text(text@),
        }
    }
}

/// The pieces, each by its texts.
pub open spec fn parts(pieces: Seq<Piece<'_>>) -> Seq<Part> {
    pieces.map_values(|piece: Piece<'_>| piece@)
}

impl<'a> Piece<'a> {
    pub fn text(&self) -> (r: &'a [char])
        ensures
            r@ == self@.text(),
    {
        match self {
            Piece::Open { text, .. } => text,
            Piece::Close { text, .. } => text,
            Piece::Whole(text) => text,
            Piece::Text(text) => text,
        }
    }

    pub fn is_blank(&self) -> (r: bool)
        ensures
            r == self@.is_blank(),
    {
        match self {
            Piece::Text(text) => is_blank(text),
            _ => false,
        }
    }

    pub fn is_cdata(&self) -> (r: bool)
        ensures
            r == self@.is_cdata(),
    {
        match self {
            Piece::Whole(text) => starts_with(text, "<![CDATA["),
            _ => false,
        }
    }
}

fn has_break(s: &[char]) -> (r: bool)
    ensures
        r == breaks(s@),
{
    has(s, '\n') || has(s, '\r')
}

/// "Not valid XML, left as it was: unterminated " and what.
fn say_unterminated(what: &str) -> (r: String)
    ensures
        r@ == unterminated(what@),
{
    let mut words: Vec<char> = chars("Not valid XML, left as it was: unterminated ");
    append_str(&mut words, what);
    string(words.as_slice())
}

fn find_tag_end(s: &[char]) -> (r: Option<usize>)
    requires
        s@.len() > 0,
    ensures
        match r {
            Some(end) => tag_end(s@, 1, None, 0) == Some(end as int) && 1 < end <= s@.len(),
            None => tag_end(s@, 1, None, 0) is None,
        },
{
    let mut quote: Option<char> = None;
    let mut brackets: usize = 0;
    let mut at: usize = 1;
    while at < s.len()
        invariant
            brackets < at <= s.len(),
            tag_end(s@, 1, None, 0) == tag_end(s@, at as int, quote, brackets as nat),
        decreases s@.len() - at,
    {
        let c: char = s[at];
        match quote {
            Some(open) => {
                if c == open {
                    quote = None;
                }
            },
            None => {
                if c == '"' || c == '\'' {
                    quote = Some(c);
                } else if c == '[' {
                    brackets = brackets + 1;
                } else if c == ']' {
                    brackets = brackets.saturating_sub(1);
                } else if c == '>' && brackets == 0 {
                    return Some(at + 1);
                } else if c == '<' && brackets == 0 {
                    return None;
                }
            },
        }
        at = at + 1;
    }
    None
}

fn read_open_name<'a>(tag: &'a [char]) -> (r: &'a [char])
    requires
        tag@.len() >= 2,
    ensures
        r@ == open_name(tag@),
{
    let body: &[char] = slice_subrange(tag, 1, tag.len() - 1);
    let mut i: usize = 0;
    while i < body.len() && !whitespace(body[i])
        invariant
            i <= body@.len(),
            first_space(body@, 0) == first_space(body@, i as int),
        decreases body@.len() - i,
    {
        i = i + 1;
    }
    slice_subrange(body, 0, i)
}

fn read_close_name<'a>(tag: &'a [char]) -> (r: &'a [char])
    requires
        tag@.len() >= 2,
    ensures
        r@ == close_name(tag@),
{
    let body: &[char] = slice_subrange(tag, 2, tag.len());
    let mut i: usize = body.len();
    proof {
        assert(body@.subrange(0, i as int) =~= body@);
    }
    while i > 0 && body[i - 1] == '>'
        invariant
            i <= body@.len(),
            without_angles(body@) == without_angles(body@.subrange(0, i as int)),
        decreases i,
    {
        proof {
            assert(body@.subrange(0, i as int).drop_last() =~= body@.subrange(0, i - 1));
        }
        i = i - 1;
    }
    trim(slice_subrange(body, 0, i))
}

fn read_run<'a>(s: &'a [char], end: &str, what: &str) -> (r: Result<(Piece<'a>, usize), String>)
    ensures
        match r {
            Ok((piece, length)) => run_to(s@, end@, what@) == Ok::<(Part, int), Seq<char>>(
                (piece@, length as int),
            ) && length <= s@.len(),
            Err(flaw) => run_to(s@, end@, what@) == Err::<(Part, int), Seq<char>>(flaw@),
        },
{
    let end: Vec<char> = chars(end);
    match find_text(s, end.as_slice(), 0) {
        Some(at) => {
            proof {
                assert(s.len() == s@.len());
            }
            let length: usize = at + end.len();
            Ok((Piece::Whole(slice_subrange(s, 0, length)), length))
        },
        None => Err(say_unterminated(what)),
    }
}

fn read_tag<'a>(tag: &'a [char]) -> (r: Result<Piece<'a>, String>)
    requires
        tag@.len() >= 2,
    ensures
        match r {
            Ok(piece) => tag_part(tag@) == Ok::<Part, Seq<char>>(piece@),
            Err(flaw) => tag_part(tag@) == Err::<Part, Seq<char>>(flaw@),
        },
{
    if starts_with(tag, "<!") || ends_with(tag, "/>") {
        Ok(Piece::Whole(tag))
    } else if starts_with(tag, "</") {
        Ok(Piece::Close { name: read_close_name(tag), text: tag })
    } else {
        let name: &[char] = read_open_name(tag);
        if name.is_empty() {
            Err("Not valid XML, left as it was: a tag with no name".to_string())
        } else {
            Ok(Piece::Open { name, text: tag })
        }
    }
}

fn read_markup<'a>(s: &'a [char]) -> (r: Result<(Piece<'a>, usize), String>)
    requires
        s@.len() > 0,
    ensures
        match r {
            Ok((piece, length)) => markup(s@) == Ok::<(Part, int), Seq<char>>(
                (piece@, length as int),
            ) && 0 < length <= s@.len(),
            Err(flaw) => markup(s@) == Err::<(Part, int), Seq<char>>(flaw@),
        },
{
    proof {
        lemma_markup(s@);
    }
    if starts_with(s, "<!--") {
        read_run(s, "-->", "comment")
    } else if starts_with(s, "<![CDATA[") {
        read_run(s, "]]>", "CDATA section")
    } else if starts_with(s, "<?") {
        read_run(s, "?>", "declaration")
    } else {
        match find_tag_end(s) {
            None => Err(say_unterminated("tag")),
            Some(end) => match read_tag(slice_subrange(s, 0, end)) {
                Ok(piece) => Ok((piece, end)),
                Err(flaw) => Err(flaw),
            },
        }
    }
}

/// Cuts a document into its pieces, keeping character data exactly as written.
pub fn xml_pieces<'a>(text: &'a [char]) -> (r: Result<Vec<Piece<'a>>, String>)
    ensures
        match r {
            Ok(pieces) => cut(text@) == Ok::<Seq<Part>, Seq<char>>(parts(pieces@)),
            Err(flaw) => cut(text@) == Err::<Seq<Part>, Seq<char>>(flaw@),
        },
{
    let mut pieces: Vec<Piece<'a>> = Vec::new();
    let mut rest: &'a [char] = text;
    proof {
        assert(parts(pieces@) =~= Seq::empty());
    }
    while !rest.is_empty()
        invariant
            cut(text@) == cut_from(rest@, parts(pieces@)),
        decreases rest@.len(),
    {
        let start: usize = find(rest, '<', 0);
        let ghost before = pieces@;
        if start == rest.len() {
            pieces.push(Piece::Text(rest));
            proof {
                assert(parts(pieces@) =~= parts(before).push(Part::Text(rest@)));
            }
            return Ok(pieces);
        }
        if start > 0 {
            pieces.push(Piece::Text(slice_subrange(rest, 0, start)));
            proof {
                assert(parts(pieces@) =~= parts(before).push(
                    Part::Text(rest@.subrange(0, start as int)),
                ));
            }
        }
        let ghost before = pieces@;
        rest = slice_subrange(rest, start, rest.len());
        match read_markup(rest) {
            Err(flaw) => {
                return Err(flaw);
            },
            Ok((piece, length)) => {
                pieces.push(piece);
                proof {
                    assert(parts(pieces@) =~= parts(before).push(piece@));
                }
                rest = slice_subrange(rest, length, rest.len());
            },
        }
    }
    Ok(pieces)
}

// ---------------------------------------------------------------------------------------
// The elements to keep
// ---------------------------------------------------------------------------------------

/// From `i` on, an attribute `xml:space` with the value `preserve`. An attribute is a name,
/// `=` and a quoted value; reading stops at what is none.
pub open spec fn preserves_from(s: Seq<char>, i: int) -> bool
    decreases s.len() - i,
    via preserves_advances
{
    let at = skip_space(s, i);
    let equals = first(s, '=', at);
    let value = skip_space(s, equals + 1);
    let end = first(s, s[value], value + 1);
    if i < 0 || equals >= s.len() || value >= s.len() {
        false
    } else if s[value] != '\'' && s[value] != '"' {
        false
    } else if end >= s.len() {
        false
    } else {
        ||| trimmed(s.subrange(at, equals)) == "xml:space"@ && s.subrange(value + 1, end)
            == "preserve"@
        ||| preserves_from(s, end + 1)
    }
}

#[via_fn]
proof fn preserves_advances(s: Seq<char>, i: int) {
    if 0 <= i <= s.len() {
        lemma_attribute(s, i);
    } else if i > s.len() {
        assert(skip_space(s, i) == i);
    }
}

pub proof fn lemma_attribute(s: Seq<char>, i: int)
    requires
        0 <= i <= s.len(),
    ensures
        ({
            let at = skip_space(s, i);
            let equals = first(s, '=', at);
            let value = skip_space(s, equals + 1);
            &&& i <= at <= equals <= s.len()
            &&& equals < s.len() ==> equals < value <= s.len()
            &&& equals < s.len() && value < s.len() ==> value < first(s, s[value], value + 1)
        }),
{
    let at = skip_space(s, i);
    lemma_skip_space(s, i);
    lemma_first(s, '=', at);
    let equals = first(s, '=', at);
    if equals < s.len() {
        lemma_skip_space(s, equals + 1);
        let value = skip_space(s, equals + 1);
        if value < s.len() {
            lemma_first(s, s[value], value + 1);
        }
    }
}

/// Whether a tag carries `xml:space="preserve"`: the attribute is read, so the words inside
/// another attribute's value do not count.
pub open spec fn preserves(tag: Seq<char>) -> bool {
    preserves_from(tag, first_space(tag, 0))
}

pub fn preserves_xml_space(tag: &[char]) -> (r: bool)
    ensures
        r == preserves(tag@),
{
    let mut i: usize = 0;
    while i < tag.len() && !whitespace(tag[i])
        invariant
            i <= tag@.len(),
            first_space(tag@, 0) == first_space(tag@, i as int),
        decreases tag@.len() - i,
    {
        i = i + 1;
    }
    while i <= tag.len()
        invariant
            i <= tag.len(),
            preserves(tag@) == preserves_from(tag@, i as int),
        decreases tag@.len() - i,
    {
        proof {
            lemma_attribute(tag@, i as int);
        }
        let at: usize = past_space(tag, i);
        let equals: usize = find(tag, '=', at);
        if equals == tag.len() {
            return false;
        }
        let value: usize = past_space(tag, equals + 1);
        if value == tag.len() {
            return false;
        }
        let quote: char = tag[value];
        if quote != '\'' && quote != '"' {
            return false;
        }
        let end: usize = find(tag, quote, value + 1);
        if end == tag.len() {
            return false;
        }
        if is(trim(slice_subrange(tag, at, equals)), "xml:space") && is(
            slice_subrange(tag, value + 1, end),
            "preserve",
        ) {
            return true;
        }
        i = end + 1;
    }
    false
}

/// An element that is open, and what has been seen directly inside it.
#[verifier::ext_equal]
pub struct Opened {
    pub name: Seq<char>,
    /// The piece that opened it.
    pub start: int,
    /// Carries `xml:space="preserve"`.
    pub space: bool,
    /// Holds text that is not white space: a text leaf, or mixed content.
    pub text: bool,
    /// Holds white space with no line break in it: spaces, not indentation.
    pub spaces: bool,
    /// Holds child elements, comments or declarations.
    pub markup: bool,
}

/// Why an element is kept as written. Text is content wherever it is. Spaces with no line
/// break are content in a leaf, and indentation where there are child elements to indent.
pub open spec fn reason(element: Opened) -> Option<Kept> {
    if element.space {
        Some(Kept::XmlSpace)
    } else if element.text || (element.spaces && !element.markup) {
        Some(Kept::CharacterData)
    } else {
        None
    }
}

/// The open elements, the innermost one holding markup.
pub open spec fn marked(open: Seq<Opened>) -> Seq<Opened> {
    if open.len() == 0 {
        open
    } else {
        open.drop_last().push(Opened { markup: true, ..open.last() })
    }
}

/// The open elements, the innermost one holding the character data `text`.
pub open spec fn holding(open: Seq<Opened>, text: Seq<char>) -> Seq<Opened> {
    if open.len() == 0 {
        open
    } else if !blank(text) {
        open.drop_last().push(Opened { text: true, ..open.last() })
    } else if !breaks(text) {
        open.drop_last().push(Opened { spaces: true, ..open.last() })
    } else {
        open
    }
}

/// An element to keep: how many pieces follow the one that opens it, up to the one that
/// closes it, and why.
pub type Span = Option<(nat, Kept)>;

/// The elements to keep once the pieces from `k` on have been gone through.
pub open spec fn weighed_from(
    parts: Seq<Part>,
    k: int,
    open: Seq<Opened>,
    spans: Seq<Span>,
) -> Result<Seq<Span>, Seq<char>>
    decreases parts.len() - k,
{
    if k >= parts.len() {
        if open.len() == 0 {
            Ok(spans)
        } else {
            Err("Not valid XML, left as it was: <"@ + open.last().name + "> is never closed"@)
        }
    } else {
        match parts[k] {
            Part::Open { name, text } => weighed_from(
                parts,
                k + 1,
                marked(open).push(
                    Opened {
                        name,
                        start: k,
                        space: preserves(text),
                        text: false,
                        spaces: false,
                        markup: false,
                    },
                ),
                spans,
            ),
            Part::Close { name, .. } => if open.len() == 0 {
                Err("Not valid XML, left as it was: </"@ + name + "> closes nothing"@)
            } else if open.last().name != name {
                Err(
                    "Not valid XML, left as it was: </"@ + name + "> closes <"@ + open.last().name
                        + ">"@,
                )
            } else {
                weighed_from(
                    parts,
                    k + 1,
                    open.drop_last(),
                    match reason(open.last()) {
                        Some(why) => spans.update(
                            open.last().start,
                            Some(((k - open.last().start) as nat, why)),
                        ),
                        None => spans,
                    },
                )
            },
            Part::Text(text) => if open.len() == 0 && !blank(text) {
                Err("Not valid XML, left as it was: text outside the root element"@)
            } else {
                weighed_from(parts, k + 1, holding(open, text), spans)
            },
            // CDATA is character data: it is content like text, not markup.
            Part::Whole(_) => weighed_from(
                parts,
                k + 1,
                if parts[k].is_cdata() {
                    open
                } else {
                    marked(open)
                },
                spans,
            ),
        }
    }
}

/// The elements to keep, each at the piece that opens it; or the flaw that makes the pieces
/// no document.
pub open spec fn weighed(parts: Seq<Part>) -> Result<Seq<Span>, Seq<char>> {
    weighed_from(parts, 0, Seq::empty(), Seq::new(parts.len(), |i: int| None))
}

struct Element<'a> {
    name: &'a [char],
    start: usize,
    space: bool,
    text: bool,
    spaces: bool,
    markup: bool,
}

impl<'a> Element<'a> {
    spec fn opened(self) -> Opened {
        Opened {
            name: self.name@,
            start: self.start as int,
            space: self.space,
            text: self.text,
            spaces: self.spaces,
            markup: self.markup,
        }
    }
}

spec fn stack(open: Seq<Element<'_>>) -> Seq<Opened> {
    open.map_values(|element: Element<'_>| element.opened())
}

spec fn span(kept: Option<(usize, Kept)>) -> Span {
    match kept {
        Some((more, why)) => Some((more as nat, why)),
        None => None,
    }
}

spec fn all_spans(kept: Seq<Option<(usize, Kept)>>) -> Seq<Span> {
    kept.map_values(|one: Option<(usize, Kept)>| span(one))
}

/// Marks the innermost open element as holding markup.
fn mark(open: &mut Vec<Element<'_>>)
    ensures
        stack(final(open)@) == marked(stack(old(open)@)),
{
    let ghost before = open@;
    match open.pop() {
        Some(mut element) => {
            element.markup = true;
            open.push(element);
            proof {
                assert(stack(open@) =~= marked(stack(before)));
            }
        },
        None => {},
    }
}

/// Marks the innermost open element as holding the character data `text`.
fn hold(open: &mut Vec<Element<'_>>, text: &[char])
    ensures
        stack(final(open)@) == holding(stack(old(open)@), text@),
{
    let ghost before = open@;
    match open.pop() {
        Some(mut element) => {
            if !is_blank(text) {
                element.text = true;
            } else if !has_break(text) {
                element.spaces = true;
            }
            open.push(element);
            proof {
                assert(stack(open@) =~= holding(stack(before), text@));
            }
        },
        None => {},
    }
}

fn flaw(before: &str, name: &[char], after: &str) -> (r: String)
    ensures
        r@ == before@ + name@ + after@,
{
    let mut words: Vec<char> = chars(before);
    append(&mut words, name);
    append_str(&mut words, after);
    string(words.as_slice())
}

/// Finds the elements to keep as written.
fn weigh<'a>(pieces: &Vec<Piece<'a>>) -> (r: Result<Vec<Option<(usize, Kept)>>, String>)
    ensures
        match r {
            Ok(kept) => weighed(parts(pieces@)) == Ok::<Seq<Span>, Seq<char>>(all_spans(kept@))
                && kept@.len() == pieces@.len() && forall|k: int|
                0 <= k < kept@.len() ==> ((#[trigger] kept@[k]) matches Some((more, _)) ==> k + more
                    < pieces@.len()),
            Err(flaw) => weighed(parts(pieces@)) == Err::<Seq<Span>, Seq<char>>(flaw@),
        },
{
    let mut open: Vec<Element<'a>> = Vec::new();
    let mut kept: Vec<Option<(usize, Kept)>> = Vec::new();
    let ghost all = parts(pieces@);
    while kept.len() < pieces.len()
        invariant
            kept@.len() <= pieces@.len(),
            forall|k: int| 0 <= k < kept@.len() ==> (#[trigger] kept@[k]) is None,
        decreases pieces@.len() - kept@.len(),
    {
        kept.push(None);
    }
    let mut index: usize = 0;
    proof {
        assert(all_spans(kept@) =~= Seq::new(all.len(), |i: int| None));
        assert(stack(open@) =~= Seq::empty());
    }
    while index < pieces.len()
        invariant
            index <= pieces@.len(),
            kept@.len() == pieces@.len(),
            all == parts(pieces@),
            weighed(all) == weighed_from(all, index as int, stack(open@), all_spans(kept@)),
            forall|k: int| 0 <= k < open@.len() ==> (#[trigger] open@[k]).start < index,
            forall|k: int|
                0 <= k < kept@.len() ==> ((#[trigger] kept@[k]) matches Some((more, _)) ==> k + more
                    < pieces@.len()),
        decreases pieces@.len() - index,
    {
        let ghost was_open = open@;
        let ghost was_kept = kept@;
        let piece: &Piece<'a> = &pieces[index];
        proof {
            assert(all[index as int] == piece@);
        }
        match piece {
            Piece::Open { name, text } => {
                let space: bool = preserves_xml_space(text);
                mark(&mut open);
                let ghost were = open@;
                open.push(
                    Element {
                        name,
                        start: index,
                        space,
                        text: false,
                        spaces: false,
                        markup: false,
                    },
                );
                proof {
                    lemma_starts(was_open, were);
                    assert(stack(open@) =~= stack(were).push(open@.last().opened()));
                }
            },
            Piece::Close { name, .. } => match open.pop() {
                None => {
                    return Err(
                        flaw("Not valid XML, left as it was: </", name, "> closes nothing"),
                    );
                },
                Some(element) => {
                    proof {
                        assert(stack(was_open).last() == element.opened());
                        assert(stack(open@) =~= stack(was_open).drop_last());
                    }
                    if !same(element.name, name) {
                        let mut words: Vec<char> = chars("Not valid XML, left as it was: </");
                        append(&mut words, name);
                        append_str(&mut words, "> closes <");
                        append(&mut words, element.name);
                        append_str(&mut words, ">");
                        return Err(string(words.as_slice()));
                    }
                    let why: Option<Kept> = if element.space {
                        Some(Kept::XmlSpace)
                    } else if element.text || (element.spaces && !element.markup) {
                        Some(Kept::CharacterData)
                    } else {
                        None
                    };
                    if let Some(why) = why {
                        kept[element.start] = Some((index - element.start, why));
                        proof {
                            assert(all_spans(kept@) =~= all_spans(was_kept).update(
                                element.start as int,
                                Some(((index - element.start) as nat, why)),
                            ));
                        }
                    }
                },
            },
            Piece::Text(text) => {
                if open.is_empty() && !is_blank(text) {
                    return Err(
                        "Not valid XML, left as it was: text outside the root element".to_string(),
                    );
                }
                hold(&mut open, text);
                proof {
                    lemma_starts(was_open, open@);
                }
            },
            Piece::Whole(_) => {
                if !piece.is_cdata() {
                    mark(&mut open);
                    proof {
                        lemma_starts(was_open, open@);
                    }
                }
            },
        }
        index = index + 1;
    }
    let ghost was_open = open@;
    match open.pop() {
        Some(element) => {
            proof {
                assert(stack(was_open).last() == element.opened());
            }
            Err(flaw("Not valid XML, left as it was: <", element.name, "> is never closed"))
        },
        None => Ok(kept),
    }
}

/// Two stacks whose elements began at the same pieces.
proof fn lemma_starts(before: Seq<Element<'_>>, after: Seq<Element<'_>>)
    requires
        stack(after).len() == stack(before).len(),
        forall|k: int|
            0 <= k < before.len() ==> (#[trigger] stack(after)[k]).start == stack(before)[k].start,
    ensures
        after.len() == before.len(),
        forall|k: int| 0 <= k < before.len() ==> (#[trigger] after[k]).start == before[k].start,
{
    assert forall|k: int| 0 <= k < before.len() implies (#[trigger] after[k]).start
        == before[k].start by {
        assert(stack(after)[k].start == stack(before)[k].start);
    }
}

// ---------------------------------------------------------------------------------------
// The lines
// ---------------------------------------------------------------------------------------

/// How a document is to be laid out.
pub struct Look {
    pub indent: Seq<char>,
    pub newline: Seq<char>,
}

/// The text from `i` on with every line break in it, however written, as `newline`.
pub open spec fn broken_from(s: Seq<char>, i: int, newline: Seq<char>) -> Seq<char>
    decreases s.len() - i,
{
    if i >= s.len() {
        Seq::empty()
    } else if s[i] == '\r' && i + 1 < s.len() && s[i + 1] == '\n' {
        newline + broken_from(s, i + 2, newline)
    } else if s[i] == '\r' || s[i] == '\n' {
        newline + broken_from(s, i + 1, newline)
    } else {
        seq![s[i]] + broken_from(s, i + 1, newline)
    }
}

/// `out`, then `content` on a line of its own, `depth` levels in.
pub open spec fn with_line(
    out: Seq<char>,
    depth: nat,
    content: Seq<char>,
    look: Look,
) -> Seq<char> {
    (if out.len() == 0 {
        out
    } else {
        out + look.newline
    }) + repeated(look.indent, depth) + broken_from(content, 0, look.newline)
}

/// The texts of `n` pieces from `i` on, as they were written.
pub open spec fn joined(parts: Seq<Part>, i: int, n: nat) -> Seq<char>
    decreases n,
{
    if n == 0 {
        Seq::empty()
    } else {
        joined(parts, i, (n - 1) as nat) + parts[i + n - 1].text()
    }
}

/// The first piece from `i` on that is not indentation, or the end.
pub open spec fn past_blanks(parts: Seq<Part>, i: int) -> int
    decreases parts.len() - i,
{
    if 0 <= i < parts.len() && parts[i].is_blank() {
        past_blanks(parts, i + 1)
    } else {
        i
    }
}

/// An element holding nothing, or one CDATA on one line, stays on one line: what is inside
/// the element that opens at `i`, and the piece that closes it.
pub open spec fn short(parts: Seq<Part>, i: int) -> Option<(Seq<char>, int)> {
    let a = past_blanks(parts, i + 1);
    let (inner, b) = if a < parts.len() && parts[a].is_cdata() && !breaks(parts[a].text()) {
        (parts[a].text(), past_blanks(parts, a + 1))
    } else {
        (Seq::empty(), a)
    };
    if b < parts.len() {
        match (parts[i], parts[b]) {
            (Part::Open { name, .. }, Part::Close { name: closing, .. }) if closing == name => Some(
                (inner, b),
            ),
            _ => None,
        }
    } else {
        None
    }
}

/// What the lines from piece `i` on add to `out`, and to the list of what was kept.
pub open spec fn lines_from(
    parts: Seq<Part>,
    spans: Seq<Span>,
    i: int,
    depth: nat,
    out: Seq<char>,
    kept: Seq<Kept>,
    look: Look,
) -> (Seq<char>, Seq<Kept>)
    decreases
            if i < parts.len() {
                parts.len() - i
            } else {
                0
            },
    via lines_advance
{
    if i >= parts.len() {
        (out, kept)
    } else if let Some((more, why)) = spans[i] {
        lines_from(
            parts,
            spans,
            i + more + 1,
            depth,
            with_line(out, depth, joined(parts, i, more + 1), look),
            kept.push(why),
            look,
        )
    } else {
        match parts[i] {
            Part::Open { text, .. } => if let Some((inner, end)) = short(parts, i) {
                lines_from(
                    parts,
                    spans,
                    end + 1,
                    depth,
                    with_line(out, depth, text + inner + parts[end].text(), look),
                    kept,
                    look,
                )
            } else {
                lines_from(
                    parts,
                    spans,
                    i + 1,
                    depth + 1,
                    with_line(out, depth, text, look),
                    kept,
                    look,
                )
            },
            Part::Close { text, .. } => {
                let outer = if depth == 0 {
                    0
                } else {
                    (depth - 1) as nat
                };
                lines_from(
                    parts,
                    spans,
                    i + 1,
                    outer,
                    with_line(out, outer, text, look),
                    kept,
                    look,
                )
            },
            Part::Whole(text) => lines_from(
                parts,
                spans,
                i + 1,
                depth,
                with_line(out, depth, text, look),
                kept,
                look,
            ),
            Part::Text(_) => lines_from(parts, spans, i + 1, depth, out, kept, look),
        }
    }
}

#[via_fn]
proof fn lines_advance(
    parts: Seq<Part>,
    spans: Seq<Span>,
    i: int,
    depth: nat,
    out: Seq<char>,
    kept: Seq<Kept>,
    look: Look,
) {
    lemma_short(parts, i);
}

pub proof fn lemma_past_blanks(parts: Seq<Part>, i: int)
    ensures
        i <= past_blanks(parts, i),
        forall|k: int| i <= k < past_blanks(parts, i) ==> (#[trigger] parts[k]).is_blank(),
    decreases parts.len() - i,
{
    if 0 <= i < parts.len() && parts[i].is_blank() {
        lemma_past_blanks(parts, i + 1);
    }
}

pub proof fn lemma_short(parts: Seq<Part>, i: int)
    ensures
        short(parts, i) matches Some((inner, end)) ==> i < end < parts.len(),
{
    lemma_past_blanks(parts, i + 1);
    lemma_past_blanks(parts, past_blanks(parts, i + 1) + 1);
}

/// A document laid out and what in it was kept, or why it is no document.
pub open spec fn xml_outcome(text: Seq<char>, look: Look) -> Result<
    (Seq<char>, Seq<Kept>),
    Seq<char>,
> {
    match cut(text) {
        Err(flaw) => Err(flaw),
        Ok(parts) => match weighed(parts) {
            Err(flaw) => Err(flaw),
            Ok(spans) => {
                let (out, kept) = lines_from(
                    parts,
                    spans,
                    0,
                    0,
                    Seq::empty(),
                    Seq::empty(),
                    look,
                );
                Ok((out + look.newline, kept))
            },
        },
    }
}

fn append_broken(out: &mut Vec<char>, s: &[char], newline: &[char])
    ensures
        final(out)@ == old(out)@ + broken_from(s@, 0, newline@),
{
    let ghost before = out@;
    let ghost all = broken_from(s@, 0, newline@);
    let mut i: usize = 0;
    while i < s.len()
        invariant
            i <= s.len(),
            before + all =~= out@ + broken_from(s@, i as int, newline@),
        decreases s@.len() - i,
    {
        let c: char = s[i];
        if c == '\r' || c == '\n' {
            append(out, newline);
            if c == '\r' && i + 1 < s.len() && s[i + 1] == '\n' {
                i = i + 1;
            }
        } else {
            out.push(c);
        }
        i = i + 1;
    }
    proof {
        assert(out@ + Seq::<char>::empty() =~= out@);
    }
}

fn append_line(
    out: &mut Vec<char>,
    depth: usize,
    content: &[char],
    indent: &[char],
    newline: &[char],
)
    ensures
        final(out)@ == with_line(
            old(out)@,
            depth as nat,
            content@,
            (Look { indent: indent@, newline: newline@ }),
        ),
{
    if !out.is_empty() {
        append(out, newline);
    }
    append_repeated(out, indent, depth);
    append_broken(out, content, newline);
}

fn join_pieces(pieces: &Vec<Piece<'_>>, i: usize, n: usize) -> (r: Vec<char>)
    requires
        i + n <= pieces.len(),
    ensures
        r@ == joined(parts(pieces@), i as int, n as nat),
{
    let mut out: Vec<char> = Vec::new();
    let mut k: usize = 0;
    while k < n
        invariant
            k <= n,
            i + n <= pieces.len(),
            out@ == joined(parts(pieces@), i as int, k as nat),
        decreases n - k,
    {
        append(&mut out, pieces[i + k].text());
        k = k + 1;
    }
    out
}

fn skip_blanks(pieces: &Vec<Piece<'_>>, i: usize) -> (r: usize)
    requires
        i <= pieces@.len(),
    ensures
        r == past_blanks(parts(pieces@), i as int),
        i <= r <= pieces@.len(),
{
    let mut k: usize = i;
    while k < pieces.len() && pieces[k].is_blank()
        invariant
            i <= k <= pieces@.len(),
            past_blanks(parts(pieces@), i as int) == past_blanks(parts(pieces@), k as int),
        decreases pieces@.len() - k,
    {
        k = k + 1;
    }
    k
}

/// What is inside the element that opens at `i` where it stays on one line, and the piece
/// that closes it.
fn find_short(pieces: &Vec<Piece<'_>>, i: usize) -> (r: Option<(Vec<char>, usize)>)
    requires
        i < pieces.len(),
    ensures
        match r {
            Some((inner, end)) => short(parts(pieces@), i as int) == Some((inner@, end as int)) && i
                < end < pieces@.len(),
            None => short(parts(pieces@), i as int) is None,
        },
{
    let ghost all = parts(pieces@);
    proof {
        lemma_short(all, i as int);
        assert(forall|k: int| 0 <= k < pieces@.len() ==> all[k] == (#[trigger] pieces@[k])@);
    }
    let mut inner: Vec<char> = Vec::new();
    let mut next: usize = skip_blanks(pieces, i + 1);
    if next < pieces.len() && pieces[next].is_cdata() {
        let cdata: &[char] = pieces[next].text();
        if !has_break(cdata) {
            append(&mut inner, cdata);
            proof {
                assert(Seq::<char>::empty() + cdata@ =~= cdata@);
            }
            next = skip_blanks(pieces, next + 1);
        }
    }
    if next < pieces.len() {
        match (&pieces[i], &pieces[next]) {
            (Piece::Open { name, .. }, Piece::Close { name: closing, .. }) => {
                if same(closing, name) {
                    return Some((inner, next));
                }
            },
            _ => {},
        }
    }
    None
}

/// Lays the pieces out.
fn lay_out(
    pieces: &Vec<Piece<'_>>,
    kept: &Vec<Option<(usize, Kept)>>,
    indent: &[char],
    newline: &[char],
) -> (r: (Vec<char>, Vec<Kept>))
    requires
        kept@.len() == pieces@.len(),
        forall|k: int|
            0 <= k < kept@.len() ==> ((#[trigger] kept@[k]) matches Some((more, _)) ==> k + more
                < pieces@.len()),
    ensures
        (r.0@, r.1@) == lines_from(
            parts(pieces@),
            all_spans(kept@),
            0,
            0,
            Seq::empty(),
            Seq::empty(),
            (Look { indent: indent@, newline: newline@ }),
        ),
{
    let ghost all = parts(pieces@);
    let ghost spans = all_spans(kept@);
    let ghost look = Look { indent: indent@, newline: newline@ };
    let mut out: Vec<char> = Vec::new();
    let mut whys: Vec<Kept> = Vec::new();
    let mut depth: usize = 0;
    let mut index: usize = 0;
    while index < pieces.len()
        invariant
            depth <= index <= pieces@.len(),
            kept@.len() == pieces@.len(),
            forall|k: int|
                0 <= k < kept@.len() ==> ((#[trigger] kept@[k]) matches Some((more, _)) ==> k + more
                    < pieces@.len()),
            all == parts(pieces@),
            spans == all_spans(kept@),
            look == (Look { indent: indent@, newline: newline@ }),
            lines_from(all, spans, 0, 0, Seq::empty(), Seq::empty(), look) == lines_from(
                all,
                spans,
                index as int,
                depth as nat,
                out@,
                whys@,
                look,
            ),
        decreases pieces@.len() - index,
    {
        proof {
            assert(all[index as int] == pieces@[index as int]@);
            assert(spans[index as int] == span(kept@[index as int]));
        }
        if let Some((more, why)) = kept[index] {
            let raw: Vec<char> = join_pieces(pieces, index, more + 1);
            append_line(&mut out, depth, raw.as_slice(), indent, newline);
            whys.push(why);
            index = index + more + 1;
            continue ;
        }
        match &pieces[index] {
            Piece::Open { text, .. } => {
                if let Some((inner, end)) = find_short(pieces, index) {
                    let mut content: Vec<char> = Vec::new();
                    append(&mut content, text);
                    append(&mut content, inner.as_slice());
                    append(&mut content, pieces[end].text());
                    proof {
                        assert(content@ =~= text@ + inner@ + all[end as int].text());
                    }
                    append_line(&mut out, depth, content.as_slice(), indent, newline);
                    index = end;
                } else {
                    append_line(&mut out, depth, text, indent, newline);
                    depth = depth + 1;
                }
            },
            Piece::Close { text, .. } => {
                depth = depth.saturating_sub(1);
                append_line(&mut out, depth, text, indent, newline);
            },
            Piece::Whole(text) => {
                append_line(&mut out, depth, text, indent, newline);
            },
            Piece::Text(_) => {},
        }
        index = index + 1;
    }
    (out, whys)
}

/// Formats one XML document, indenting by `indent` and ending lines with `newline`. Every
/// line break inside a piece is the document's line ending too.
pub fn xml(text: &str, indent: &str, newline: &str) -> (r: Result<Formatted, String>)
    ensures
        match r {
            Ok(formatted) => xml_outcome(
                text@,
                (Look { indent: indent@, newline: newline@ }),
            ) == Ok::<(Seq<char>, Seq<Kept>), Seq<char>>((formatted.text@, formatted.kept@)),
            Err(flaw) => xml_outcome(text@, (Look { indent: indent@, newline: newline@ })) == Err::<
                (Seq<char>, Seq<Kept>),
                Seq<char>,
            >(flaw@),
        },
{
    let text: Vec<char> = chars(text);
    let indent: Vec<char> = chars(indent);
    let newline: Vec<char> = chars(newline);
    let pieces: Vec<Piece<'_>> = match xml_pieces(text.as_slice()) {
        Ok(pieces) => pieces,
        Err(flaw) => {
            return Err(flaw);
        },
    };
    let spans: Vec<Option<(usize, Kept)>> = match weigh(&pieces) {
        Ok(spans) => spans,
        Err(flaw) => {
            return Err(flaw);
        },
    };
    let (mut out, kept) = lay_out(&pieces, &spans, indent.as_slice(), newline.as_slice());
    append(&mut out, newline.as_slice());
    Ok(Formatted { text: string(out.as_slice()), kept })
}

// ---------------------------------------------------------------------------------------
// What laying out keeps
// ---------------------------------------------------------------------------------------

proof fn lemma_ink_repeated(part: Seq<char>, n: nat)
    requires
        blank(part),
    ensures
        ink(repeated(part, n)) == Seq::<char>::empty(),
    decreases n,
{
    if n > 0 {
        lemma_ink_repeated(part, (n - 1) as nat);
        lemma_ink_joined(repeated(part, (n - 1) as nat), part);
        lemma_ink_blank(part);
    }
}

proof fn lemma_ink_broken(s: Seq<char>, i: int, newline: Seq<char>)
    requires
        0 <= i <= s.len(),
        blank(newline),
    ensures
        ink(broken_from(s, i, newline)) == ink(s.subrange(i, s.len() as int)),
    decreases s.len() - i,
{
    let rest = s.subrange(i, s.len() as int);
    if i >= s.len() {
        assert(rest =~= Seq::<char>::empty());
    } else {
        lemma_ink_blank(newline);
        if s[i] == '\r' && i + 1 < s.len() && s[i + 1] == '\n' {
            lemma_ink_broken(s, i + 2, newline);
            lemma_ink_joined(newline, broken_from(s, i + 2, newline));
            lemma_ink_joined(seq![s[i], s[i + 1]], s.subrange(i + 2, s.len() as int));
            lemma_ink_blank(seq![s[i], s[i + 1]]);
            assert(rest =~= seq![s[i], s[i + 1]] + s.subrange(i + 2, s.len() as int));
        } else {
            lemma_ink_broken(s, i + 1, newline);
            lemma_ink_joined(seq![s[i]], s.subrange(i + 1, s.len() as int));
            lemma_ink_joined(newline, broken_from(s, i + 1, newline));
            lemma_ink_joined(seq![s[i]], broken_from(s, i + 1, newline));
            lemma_ink_one(s[i]);
            assert(rest =~= seq![s[i]] + s.subrange(i + 1, s.len() as int));
        }
    }
}

proof fn lemma_ink_line(out: Seq<char>, depth: nat, content: Seq<char>, look: Look)
    requires
        blank(look.indent),
        blank(look.newline),
    ensures
        ink(with_line(out, depth, content, look)) == ink(out) + ink(content),
{
    let start = if out.len() == 0 {
        out
    } else {
        out + look.newline
    };
    let indented = start + repeated(look.indent, depth);
    lemma_ink_joined(out, look.newline);
    lemma_ink_blank(look.newline);
    lemma_ink_joined(start, repeated(look.indent, depth));
    lemma_ink_repeated(look.indent, depth);
    lemma_ink_joined(indented, broken_from(content, 0, look.newline));
    lemma_ink_broken(content, 0, look.newline);
    assert(content.subrange(0, content.len() as int) =~= content);
    assert(ink(out) + Seq::<char>::empty() =~= ink(out));
}

/// The texts of the pieces from `i` on.
pub open spec fn tail(parts: Seq<Part>, i: int) -> Seq<char>
    decreases parts.len() - i,
{
    if i >= parts.len() {
        Seq::empty()
    } else {
        parts[i].text() + tail(parts, i + 1)
    }
}

pub proof fn lemma_tail_joined(parts: Seq<Part>, i: int, n: nat)
    requires
        0 <= i,
        i + n <= parts.len(),
    ensures
        tail(parts, i) == joined(parts, i, n) + tail(parts, i + n),
    decreases n,
{
    if n == 0 {
        assert(joined(parts, i, n) + tail(parts, i) =~= tail(parts, i));
    } else {
        lemma_tail_joined(parts, i, (n - 1) as nat);
        assert(tail(parts, i) =~= joined(parts, i, n) + tail(parts, i + n));
    }
}

pub proof fn lemma_tail_push(parts: Seq<Part>, part: Part, i: int)
    requires
        0 <= i <= parts.len(),
    ensures
        tail(parts.push(part), i) == tail(parts, i) + part.text(),
    decreases parts.len() - i,
{
    let more = parts.push(part);
    if i == parts.len() {
        assert(tail(more, i + 1) == Seq::<char>::empty());
        assert(more[i] == part);
        assert(tail(more, i) =~= tail(parts, i) + part.text());
    } else {
        lemma_tail_push(parts, part, i + 1);
        assert(more[i] == parts[i]);
        assert(tail(more, i) =~= tail(parts, i) + part.text());
    }
}

proof fn lemma_cut_joined(rest: Seq<char>, done: Seq<Part>)
    ensures
        cut_from(rest, done) matches Ok(parts) ==> tail(parts, 0) == tail(done, 0) + rest,
    decreases rest.len(),
{
    lemma_first(rest, '<', 0);
    let lt = first(rest, '<', 0);
    if rest.len() == 0 {
        assert(tail(done, 0) + rest =~= tail(done, 0));
    } else if lt == rest.len() {
        lemma_tail_push(done, Part::Text(rest), 0);
    } else {
        let before = if lt > 0 {
            done.push(Part::Text(rest.subrange(0, lt)))
        } else {
            done
        };
        if lt > 0 {
            lemma_tail_push(done, Part::Text(rest.subrange(0, lt)), 0);
        }
        let at = rest.subrange(lt, rest.len() as int);
        lemma_markup(at);
        if let Ok((part, length)) = markup(at) {
            let after = at.subrange(length, at.len() as int);
            lemma_cut_joined(after, before.push(part));
            lemma_tail_push(before, part, 0);
            assert(tail(done, 0) + rest =~= tail(before.push(part), 0) + after);
        }
    }
}

/// The pieces of a document, put together again, are the document.
pub proof fn pieces_are_the_text(text: Seq<char>)
    ensures
        cut(text) matches Ok(parts) ==> tail(parts, 0) == text,
{
    lemma_cut_joined(text, Seq::empty());
    assert(tail(Seq::<Part>::empty(), 0) + text =~= text);
}

/// What holds of the open elements and the kept ones before piece `k`.
pub open spec fn sound(parts: Seq<Part>, k: int, open: Seq<Opened>, spans: Seq<Span>) -> bool {
    &&& 0 <= k <= parts.len()
    &&& spans.len() == parts.len()
    &&& forall|a: int| 0 <= a < open.len() ==> 0 <= (#[trigger] open[a]).start < k
    &&& forall|a: int, b: int|
        0 <= a < b < open.len() ==> (#[trigger] open[a]).start < (#[trigger] open[b]).start
    &&& forall|j: int| k <= j < spans.len() ==> (#[trigger] spans[j]) is None
}

pub open spec fn opened_at(open: Seq<Opened>, j: int) -> bool {
    exists|a: int| 0 <= a < open.len() && (#[trigger] open[a]).start == j
}

/// One step of the weighing: the state after piece `k`.
pub open spec fn after_piece(parts: Seq<Part>, k: int, open: Seq<Opened>, spans: Seq<Span>) -> (
    Seq<Opened>,
    Seq<Span>,
) {
    match parts[k] {
        Part::Open { name, text } => (
            marked(open).push(
                Opened {
                    name,
                    start: k,
                    space: preserves(text),
                    text: false,
                    spaces: false,
                    markup: false,
                },
            ),
            spans,
        ),
        Part::Close { name, .. } => (
            open.drop_last(),
            match reason(open.last()) {
                Some(why) => spans.update(
                    open.last().start,
                    Some(((k - open.last().start) as nat, why)),
                ),
                None => spans,
            },
        ),
        Part::Text(text) => (holding(open, text), spans),
        Part::Whole(_) => (
            if parts[k].is_cdata() {
                open
            } else {
                marked(open)
            },
            spans,
        ),
    }
}

pub proof fn lemma_step(parts: Seq<Part>, k: int, open: Seq<Opened>, spans: Seq<Span>)
    requires
        k < parts.len(),
        sound(parts, k, open, spans),
        weighed_from(parts, k, open, spans) is Ok,
    ensures
        ({
            let (open2, spans2) = after_piece(parts, k, open, spans);
            &&& weighed_from(parts, k, open, spans) == weighed_from(parts, k + 1, open2, spans2)
            &&& sound(parts, k + 1, open2, spans2)
            &&& parts[k] is Close ==> open.len() > 0
            &&& parts[k] matches Part::Text(text) ==> open.len() > 0 || blank(text)
        }),
{
    let (open2, spans2) = after_piece(parts, k, open, spans);
    assert forall|a: int, b: int| 0 <= a < b < open2.len() implies (#[trigger] open2[a]).start < (
    #[trigger] open2[b]).start by {
        if b < open.len() {
            assert(open[a].start < open[b].start);
        }
    }
}

/// A piece that is not inside any open element keeps what has been found of it.
pub proof fn lemma_settled(parts: Seq<Part>, k: int, open: Seq<Opened>, spans: Seq<Span>, j: int)
    requires
        sound(parts, k, open, spans),
        weighed_from(parts, k, open, spans) is Ok,
        0 <= j < k,
        !opened_at(open, j),
    ensures
        weighed_from(parts, k, open, spans)->Ok_0[j] == spans[j],
    decreases parts.len() - k,
{
    if k < parts.len() {
        lemma_step(parts, k, open, spans);
        let (open2, spans2) = after_piece(parts, k, open, spans);
        assert forall|a: int| 0 <= a < open2.len() implies (#[trigger] open2[a]).start != j by {
            if a < open.len() {
                assert(open[a].start != j);
            }
        }
        if parts[k] is Close {
            assert(open[open.len() - 1].start != j);
        }
        lemma_settled(parts, k + 1, open2, spans2, j);
    }
}

/// An open element that holds text is kept.
pub proof fn lemma_text_is_kept(parts: Seq<Part>, k: int, open: Seq<Opened>, spans: Seq<Span>, a: int)
    requires
        sound(parts, k, open, spans),
        weighed_from(parts, k, open, spans) is Ok,
        0 <= a < open.len(),
        open[a].text,
    ensures
        weighed_from(parts, k, open, spans)->Ok_0[open[a].start] is Some,
    decreases parts.len() - k,
{
    if k < parts.len() {
        lemma_step(parts, k, open, spans);
        let (open2, spans2) = after_piece(parts, k, open, spans);
        let j = open[a].start;
        if a < open2.len() {
            assert(open2[a].start == j && open2[a].text);
            lemma_text_is_kept(parts, k + 1, open2, spans2, a);
        } else {
            assert(a == open.len() - 1);
            assert forall|b: int| 0 <= b < open2.len() implies (#[trigger] open2[b]).start != j by {
                assert(open[b].start < open[a].start);
            }
            lemma_settled(parts, k + 1, open2, spans2, j);
        }
    }
}

/// The piece that closes the outermost of the innermost `levels` open elements.
pub open spec fn closes_at(parts: Seq<Part>, k: int, levels: int) -> int
    decreases parts.len() - k,
{
    if k >= parts.len() {
        k
    } else {
        match parts[k] {
            Part::Open { .. } => closes_at(parts, k + 1, levels + 1),
            Part::Close { .. } => if levels == 1 {
                k
            } else {
                closes_at(parts, k + 1, levels - 1)
            },
            _ => closes_at(parts, k + 1, levels),
        }
    }
}

/// The element `n` levels in is closed somewhere: from there on the elements around it go
/// on as they were, and what is kept of it reaches exactly that far.
pub proof fn lemma_closes(
    parts: Seq<Part>,
    k: int,
    open: Seq<Opened>,
    spans: Seq<Span>,
    n: int,
) -> (r: (int, Seq<Span>))
    requires
        sound(parts, k, open, spans),
        weighed_from(parts, k, open, spans) is Ok,
        0 <= n < open.len(),
    ensures
        ({
            let (m, spans2) = r;
            let last = weighed_from(parts, k, open, spans)->Ok_0;
            let j = open[n].start;
            &&& k <= m < parts.len()
            &&& m == closes_at(parts, k, open.len() - n)
            &&& parts[m] is Close
            &&& sound(parts, m + 1, open.subrange(0, n), spans2)
            &&& weighed_from(parts, m + 1, open.subrange(0, n), spans2) == weighed_from(
                parts,
                k,
                open,
                spans,
            )
            &&& last[j] matches Some((more, _)) ==> more == m - j || last[j] == spans[j]
        }),
    decreases parts.len() - k,
{
    if k >= parts.len() {
        (k, spans)
    } else {
        lemma_step(parts, k, open, spans);
        let (open2, spans2) = after_piece(parts, k, open, spans);
        let j = open[n].start;
        if n < open2.len() {
            assert(open2[n].start == j);
            assert(open2.subrange(0, n) =~= open.subrange(0, n));
            if parts[k] is Close {
                assert(open[open.len() - 1].start != j);
            }
            lemma_closes(parts, k + 1, open2, spans2, n)
        } else {
            assert(open2 =~= open.subrange(0, n));
            assert forall|b: int| 0 <= b < open2.len() implies (#[trigger] open2[b]).start != j by {
                assert(open[b].start < open[n].start);
            }
            lemma_settled(parts, k + 1, open2, spans2, j);
            (k, spans2)
        }
    }
}

/// Indentation and CDATA leave the stack of open elements as it is.
pub proof fn lemma_over_blanks(
    parts: Seq<Part>,
    k: int,
    end: int,
    open: Seq<Opened>,
    spans: Seq<Span>,
) -> (r: Seq<Opened>)
    requires
        sound(parts, k, open, spans),
        weighed_from(parts, k, open, spans) is Ok,
        open.len() > 0,
        k <= end < parts.len(),
        forall|j: int|
            k <= j < end ==> (#[trigger] parts[j]).is_blank() || parts[j].is_cdata(),
    ensures
        sound(parts, end, r, spans),
        weighed_from(parts, end, r, spans) == weighed_from(parts, k, open, spans),
        r.len() == open.len(),
        r.drop_last() == open.drop_last(),
        r.last().start == open.last().start,
        r.last().name == open.last().name,
    decreases end - k,
{
    if k == end {
        open
    } else {
        lemma_step(parts, k, open, spans);
        let (open2, spans2) = after_piece(parts, k, open, spans);
        assert(parts[k].is_blank() || parts[k].is_cdata());
        assert(open2.drop_last() =~= open.drop_last());
        lemma_over_blanks(parts, k + 1, end, open2, spans2)
    }
}

/// No open element is one that is kept.
pub open spec fn clear(open: Seq<Opened>, last: Seq<Span>) -> bool {
    forall|a: int| 0 <= a < open.len() ==> last[(#[trigger] open[a]).start] is None
}

proof fn lemma_lines(
    parts: Seq<Part>,
    i: int,
    depth: nat,
    out: Seq<char>,
    kept: Seq<Kept>,
    look: Look,
    open: Seq<Opened>,
    spans: Seq<Span>,
)
    requires
        sound(parts, i, open, spans),
        weighed_from(parts, i, open, spans) is Ok,
        clear(open, weighed_from(parts, i, open, spans)->Ok_0),
        blank(look.indent),
        blank(look.newline),
    ensures
        ink(
            lines_from(
                parts,
                weighed_from(parts, i, open, spans)->Ok_0,
                i,
                depth,
                out,
                kept,
                look,
            ).0,
        ) == ink(out) + ink(tail(parts, i)),
    decreases parts.len() - i,
{
    let last = weighed_from(parts, i, open, spans)->Ok_0;
    let whole = lines_from(parts, last, i, depth, out, kept, look).0;
    if i >= parts.len() {
        assert(ink(out) + Seq::<char>::empty() =~= ink(out));
    } else {
        lemma_step(parts, i, open, spans);
        let (open2, spans2) = after_piece(parts, i, open, spans);
        assert(opened_at(open2, i) ==> parts[i] is Open);
        if !(parts[i] is Open) {
            lemma_settled(parts, i + 1, open2, spans2, i);
            if parts[i] is Close {
                assert(open[open.len() - 1].start < i);
            }
            assert(last[i] is None);
        }
        lemma_ink_joined(parts[i].text(), tail(parts, i + 1));
        if let Some((more, why)) = last[i] {
            let n = open.len() as int;
            assert(open2[n].start == i);
            let (m, spans3) = lemma_closes(parts, i + 1, open2, spans2, n);
            assert(more == m - i);
            let open3 = open2.subrange(0, n);
            assert(open3 =~= marked(open));
            assert forall|a: int| 0 <= a < open3.len() implies last[(
            #[trigger] open3[a]).start] is None by {
                assert(open3[a].start == open[a].start);
            }
            let raw = joined(parts, i, more + 1);
            let line = with_line(out, depth, raw, look);
            lemma_ink_line(out, depth, raw, look);
            lemma_lines(parts, m + 1, depth, line, kept.push(why), look, open3, spans3);
            lemma_tail_joined(parts, i, more + 1);
            lemma_ink_joined(raw, tail(parts, m + 1));
            assert(whole == lines_from(
                parts,
                last,
                i + more + 1,
                depth,
                line,
                kept.push(why),
                look,
            ).0);
            assert(ink(out) + ink(raw) + ink(tail(parts, m + 1)) =~= ink(out) + (ink(raw) + ink(
                tail(parts, m + 1),
            )));
        } else if parts[i] is Open && short(parts, i) is Some {
            lemma_lines_short(parts, i, depth, out, kept, look, open, spans);
        } else {
            assert forall|a: int| 0 <= a < open2.len() implies last[(
            #[trigger] open2[a]).start] is None by {
                if a < open.len() {
                    assert(open2[a].start == open[a].start);
                }
            }
            let outer = if depth == 0 {
                0
            } else {
                (depth - 1) as nat
            };
            let (inner, line) = match parts[i] {
                Part::Open { text, .. } => (depth + 1, with_line(out, depth, text, look)),
                Part::Close { text, .. } => (outer, with_line(out, outer, text, look)),
                Part::Whole(text) => (depth, with_line(out, depth, text, look)),
                Part::Text(_) => (depth, out),
            };
            lemma_ink_line(out, depth, parts[i].text(), look);
            lemma_ink_line(out, outer, parts[i].text(), look);
            if let Part::Text(text) = parts[i] {
                if !blank(text) {
                    lemma_text_is_kept(parts, i + 1, open2, spans2, open2.len() - 1);
                    assert(false);
                }
                lemma_ink_blank(text);
                assert(ink(out) + Seq::<char>::empty() =~= ink(out));
            }
            lemma_lines(parts, i + 1, inner, line, kept, look, open2, spans2);
            assert(ink(line) == ink(out) + ink(parts[i].text()));
            assert(ink(out) + ink(parts[i].text()) + ink(tail(parts, i + 1)) =~= ink(out) + (ink(
                parts[i].text(),
            ) + ink(tail(parts, i + 1))));
        }
    }
}

proof fn lemma_ink_blanks(parts: Seq<Part>, i: int, n: nat)
    requires
        0 <= i,
        i + n <= parts.len(),
        forall|k: int| i <= k < i + n ==> (#[trigger] parts[k]).is_blank(),
    ensures
        ink(joined(parts, i, n)) == Seq::<char>::empty(),
    decreases n,
{
    if n > 0 {
        lemma_ink_blanks(parts, i, (n - 1) as nat);
        lemma_ink_joined(joined(parts, i, (n - 1) as nat), parts[i + n - 1].text());
        assert(parts[i + n - 1].is_blank());
        lemma_ink_blank(parts[i + n - 1].text());
    }
}

/// The text between the tags of an element on one line, but for the indentation.
proof fn lemma_short_ink(parts: Seq<Part>, i: int)
    requires
        0 <= i < parts.len(),
        short(parts, i) is Some,
    ensures
        ({
            let (inner, end) = short(parts, i)->0;
            &&& i < end < parts.len()
            &&& parts[end] is Close
            &&& ink(tail(parts, i)) == ink(parts[i].text() + inner + parts[end].text()) + ink(
                tail(parts, end + 1),
            )
            &&& forall|j: int|
                i < j < end ==> (#[trigger] parts[j]).is_blank() || parts[j].is_cdata()
        }),
{
    let (inner, end) = short(parts, i)->0;
    let a = past_blanks(parts, i + 1);
    lemma_past_blanks(parts, i + 1);
    lemma_past_blanks(parts, a + 1);
    lemma_tail_joined(parts, i + 1, (a - i - 1) as nat);
    lemma_ink_blanks(parts, i + 1, (a - i - 1) as nat);
    lemma_ink_joined(joined(parts, i + 1, (a - i - 1) as nat), tail(parts, a));
    lemma_ink_joined(parts[i].text(), tail(parts, i + 1));
    assert(Seq::<char>::empty() + ink(tail(parts, a)) =~= ink(tail(parts, a)));
    if a != end {
        let b = end;
        lemma_tail_joined(parts, a + 1, (b - a - 1) as nat);
        lemma_ink_blanks(parts, a + 1, (b - a - 1) as nat);
        lemma_ink_joined(joined(parts, a + 1, (b - a - 1) as nat), tail(parts, b));
        lemma_ink_joined(parts[a].text(), tail(parts, a + 1));
        assert(Seq::<char>::empty() + ink(tail(parts, b)) =~= ink(tail(parts, b)));
        assert(ink(tail(parts, a)) == ink(inner) + ink(tail(parts, end)));
    } else {
        assert(inner =~= Seq::<char>::empty());
        assert(ink(inner) + ink(tail(parts, end)) =~= ink(tail(parts, end)));
    }
    lemma_ink_joined(parts[end].text(), tail(parts, end + 1));
    lemma_ink_joined(parts[i].text() + inner, parts[end].text());
    lemma_ink_joined(parts[i].text(), inner);
    assert(ink(tail(parts, i)) =~= ink(parts[i].text() + inner + parts[end].text()) + ink(
        tail(parts, end + 1),
    ));
}

proof fn lemma_lines_short(
    parts: Seq<Part>,
    i: int,
    depth: nat,
    out: Seq<char>,
    kept: Seq<Kept>,
    look: Look,
    open: Seq<Opened>,
    spans: Seq<Span>,
)
    requires
        i < parts.len(),
        sound(parts, i, open, spans),
        weighed_from(parts, i, open, spans) is Ok,
        clear(open, weighed_from(parts, i, open, spans)->Ok_0),
        blank(look.indent),
        blank(look.newline),
        parts[i] is Open,
        weighed_from(parts, i, open, spans)->Ok_0[i] is None,
        short(parts, i) is Some,
    ensures
        ink(
            lines_from(
                parts,
                weighed_from(parts, i, open, spans)->Ok_0,
                i,
                depth,
                out,
                kept,
                look,
            ).0,
        ) == ink(out) + ink(tail(parts, i)),
    decreases parts.len() - i - 1,
{
    let last = weighed_from(parts, i, open, spans)->Ok_0;
    let (inner, end) = short(parts, i)->0;
    lemma_short_ink(parts, i);
    lemma_step(parts, i, open, spans);
    let (open2, spans2) = after_piece(parts, i, open, spans);
    let open3 = lemma_over_blanks(parts, i + 1, end, open2, spans2);
    lemma_step(parts, end, open3, spans2);
    let (open4, spans4) = after_piece(parts, end, open3, spans2);
    assert(open4 =~= marked(open));
    assert forall|a: int| 0 <= a < open4.len() implies last[(
    #[trigger] open4[a]).start] is None by {
        assert(open4[a].start == open[a].start);
    }
    let content = parts[i].text() + inner + parts[end].text();
    let line = with_line(out, depth, content, look);
    lemma_ink_line(out, depth, content, look);
    lemma_lines(parts, end + 1, depth, line, kept, look, open4, spans4);
    assert(ink(out) + ink(content) + ink(tail(parts, end + 1)) =~= ink(out) + (ink(content) + ink(
        tail(parts, end + 1),
    )));
}

/// Laying out changes nothing but white space: tags, text, comments and declarations come
/// out exactly as they went in, and nothing is lost.
pub proof fn xml_changes_only_white_space(text: Seq<char>, look: Look)
    requires
        blank(look.indent),
        blank(look.newline),
    ensures
        xml_outcome(text, look) matches Ok((out, kept)) ==> ink(out) == ink(text),
{
    if let Ok(parts) = cut(text) {
        if let Ok(last) = weighed(parts) {
            let spans = Seq::new(parts.len(), |i: int| None::<(nat, Kept)>);
            let (out, kept) = lines_from(parts, last, 0, 0, Seq::empty(), Seq::empty(), look);
            lemma_lines(
                parts,
                0,
                0,
                Seq::empty(),
                Seq::empty(),
                look,
                Seq::empty(),
                spans,
            );
            pieces_are_the_text(text);
            lemma_ink_joined(out, look.newline);
            lemma_ink_blank(look.newline);
            assert(ink(Seq::<char>::empty()) + ink(text) =~= ink(text));
            assert(ink(text) + Seq::<char>::empty() =~= ink(text));
        }
    }
}

} // verus!
