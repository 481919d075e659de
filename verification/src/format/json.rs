//! Laying out JSON.
//!
//! A document is first squeezed: the white space outside its strings goes. What is left is
//! laid out one element to a line. The layout is a function of the squeezed text alone.

use crate::text::{append, append_repeated, append_str, blank, chars, is_space, repeated, string,
    whitespace};
use vstd::prelude::*;
use vstd::slice::slice_subrange;

verus! {

/// Where the string whose body begins at `j` ends, its closing quote included.
pub open spec fn close_quote(s: Seq<char>, j: int) -> Option<int>
    decreases s.len() + 1 - j,
{
    if j >= s.len() {
        None
    } else if s[j] == '\\' {
        close_quote(s, j + 2)
    } else if s[j] == '"' {
        Some(j + 1)
    } else {
        close_quote(s, j + 1)
    }
}

/// Where the string that opens at `i` ends: a string that is never closed runs to the end.
pub open spec fn string_end(s: Seq<char>, i: int) -> int {
    match close_quote(s, i + 1) {
        Some(end) => end,
        None => s.len() as int,
    }
}

/// Every string from `i` on is closed.
pub open spec fn closed_from(s: Seq<char>, i: int) -> bool
    decreases s.len() - i,
    via string_end_advances
{
    if i >= s.len() {
        true
    } else if s[i] == '"' {
        close_quote(s, i + 1) is Some && closed_from(s, string_end(s, i))
    } else {
        closed_from(s, i + 1)
    }
}

/// Every string of the text is closed.
pub open spec fn strings_closed(s: Seq<char>) -> bool {
    closed_from(s, 0)
}

/// What of the text from `i` on is not white space between the pieces.
pub open spec fn significant_from(s: Seq<char>, i: int) -> Seq<char>
    decreases s.len() - i,
    via significant_advances
{
    if i >= s.len() {
        Seq::empty()
    } else if s[i] == '"' {
        s.subrange(i, string_end(s, i)) + significant_from(s, string_end(s, i))
    } else if is_space(s[i]) {
        significant_from(s, i + 1)
    } else {
        seq![s[i]] + significant_from(s, i + 1)
    }
}

/// The text without the white space outside its strings.
pub open spec fn significant(s: Seq<char>) -> Seq<char> {
    significant_from(s, 0)
}

#[via_fn]
proof fn string_end_advances(s: Seq<char>, i: int) {
    if i < s.len() {
        lemma_close_quote(s, i + 1);
    }
}

#[via_fn]
proof fn significant_advances(s: Seq<char>, i: int) {
    if i < s.len() {
        lemma_close_quote(s, i + 1);
    }
}

pub proof fn lemma_close_quote(s: Seq<char>, j: int)
    ensures
        close_quote(s, j) matches Some(end) ==> j < end <= s.len() && (0 <= j ==> s[end - 1]
            == '"'),
    decreases s.len() + 1 - j,
{
    if j < s.len() {
        if s[j] == '\\' {
            lemma_close_quote(s, j + 2);
        } else if s[j] != '"' {
            lemma_close_quote(s, j + 1);
        }
    }
}

/// A line break and the indentation of a line `depth` levels in.
pub open spec fn line_break(depth: nat, indent: Seq<char>, newline: Seq<char>) -> Seq<char> {
    newline + repeated(indent, depth)
}

pub open spec fn closing(c: char) -> char {
    if c == '{' {
        '}'
    } else {
        ']'
    }
}

/// The layout of squeezed text from `i` on, `depth` levels in.
pub open spec fn laid_from(
    s: Seq<char>,
    i: int,
    depth: nat,
    indent: Seq<char>,
    newline: Seq<char>,
) -> Seq<char>
    decreases s.len() - i,
    via laid_advances
{
    if i >= s.len() {
        Seq::empty()
    } else if s[i] == '"' {
        s.subrange(i, string_end(s, i)) + laid_from(s, string_end(s, i), depth, indent, newline)
    } else if s[i] == '{' || s[i] == '[' {
        if i + 1 < s.len() && s[i + 1] == closing(s[i]) {
            seq![s[i], s[i + 1]] + laid_from(s, i + 2, depth, indent, newline)
        } else {
            seq![s[i]] + line_break(depth + 1, indent, newline) + laid_from(
                s,
                i + 1,
                depth + 1,
                indent,
                newline,
            )
        }
    } else if s[i] == '}' || s[i] == ']' {
        let outer = if depth == 0 {
            0
        } else {
            (depth - 1) as nat
        };
        line_break(outer, indent, newline) + seq![s[i]] + laid_from(
            s,
            i + 1,
            outer,
            indent,
            newline,
        )
    } else if s[i] == ',' {
        seq![','] + line_break(depth, indent, newline) + laid_from(s, i + 1, depth, indent, newline)
    } else if s[i] == ':' {
        seq![':', ' '] + laid_from(s, i + 1, depth, indent, newline)
    } else {
        seq![s[i]] + laid_from(s, i + 1, depth, indent, newline)
    }
}

#[via_fn]
proof fn laid_advances(
    s: Seq<char>,
    i: int,
    depth: nat,
    indent: Seq<char>,
    newline: Seq<char>,
) {
    if i < s.len() {
        lemma_close_quote(s, i + 1);
    }
}

/// JSON text laid out: an element to a line, indented by its depth, with a line break at
/// the end.
pub open spec fn laid_out(text: Seq<char>, indent: Seq<char>, newline: Seq<char>) -> Seq<char> {
    laid_from(significant(text), 0, 0, indent, newline) + newline
}

/// The flaw that `serde_json` finds in a text that is to be one JSON document, in the words
/// of its error; none in a text that is.
pub uninterp spec fn json_flaw(text: Seq<char>) -> Option<Seq<char>>;

/// `serde_json::from_str` into `serde::de::IgnoredAny`: reads the whole text as one JSON
/// document without building a value, and says what is wrong where it is none. In a text
/// that it takes, every string is closed: its reader of strings fails at the end of the
/// text.
#[verifier::external_body]
fn check_json(text: &str) -> (r: Option<String>)
    ensures
        r is None ==> json_flaw(text@) is None && strings_closed(text@),
        r matches Some(flaw) ==> json_flaw(text@) == Some(flaw@),
{
    serde_json::from_str::<serde::de::IgnoredAny>(text).err().map(|flaw| flaw.to_string())
}

/// Where the string that opens at `i` ends.
fn past_string(s: &[char], i: usize) -> (r: usize)
    requires
        i < s.len(),
    ensures
        r == string_end(s@, i as int),
        i < r <= s@.len(),
{
    let mut j: usize = i + 1;
    while j < s.len()
        invariant
            i < j <= s@.len(),
            close_quote(s@, i + 1) == close_quote(s@, j as int),
        decreases s@.len() - j,
    {
        if s[j] == '"' {
            return j + 1;
        }
        if s[j] == '\\' {
            if s.len() - j <= 2 {
                proof {
                    assert(close_quote(s@, j + 2) is None);
                }
                return s.len();
            }
            j = j + 2;
        } else {
            j = j + 1;
        }
    }
    j
}

/// The text without the white space outside its strings.
fn squeeze(s: &[char]) -> (r: Vec<char>)
    ensures
        r@ == significant(s@),
{
    let mut out: Vec<char> = Vec::new();
    let mut i: usize = 0;
    proof {
        assert(Seq::<char>::empty() + significant(s@) =~= significant(s@));
    }
    while i < s.len()
        invariant
            i <= s@.len(),
            out@ + significant_from(s@, i as int) == significant(s@),
        decreases s@.len() - i,
    {
        let ghost before = out@;
        let ghost rest = significant_from(s@, i as int);
        if s[i] == '"' {
            let end: usize = past_string(s, i);
            append(&mut out, slice_subrange(s, i, end));
            i = end;
        } else {
            if !whitespace(s[i]) {
                out.push(s[i]);
            }
            i = i + 1;
        }
        proof {
            assert(out@ + significant_from(s@, i as int) =~= before + rest);
        }
    }
    proof {
        assert(out@ + Seq::<char>::empty() =~= out@);
    }
    out
}

fn append_break(out: &mut Vec<char>, depth: usize, indent: &[char], newline: &[char])
    ensures
        final(out)@ == old(out)@ + line_break(depth as nat, indent@, newline@),
{
    let ghost before = out@;
    append(out, newline);
    append_repeated(out, indent, depth);
    proof {
        assert(out@ =~= before + line_break(depth as nat, indent@, newline@));
    }
}

/// Lays out squeezed text.
fn lay_out(s: &[char], indent: &[char], newline: &[char]) -> (r: Vec<char>)
    ensures
        r@ == laid_from(s@, 0, 0, indent@, newline@),
{
    let mut out: Vec<char> = Vec::new();
    let mut depth: usize = 0;
    let mut i: usize = 0;
    let ghost whole = laid_from(s@, 0, 0, indent@, newline@);
    proof {
        assert(out@ + whole =~= whole);
    }
    while i < s.len()
        invariant
            depth <= i <= s@.len(),
            whole == out@ + laid_from(s@, i as int, depth as nat, indent@, newline@),
        decreases s@.len() - i,
    {
        let c: char = s[i];
        let ghost before = out@;
        let ghost rest = laid_from(s@, i as int, depth as nat, indent@, newline@);
        if c == '"' {
            let end: usize = past_string(s, i);
            append(&mut out, slice_subrange(s, i, end));
            i = end;
        } else if c == '{' || c == '[' {
            let close: char = if c == '{' {
                '}'
            } else {
                ']'
            };
            out.push(c);
            i = i + 1;
            if i < s.len() && s[i] == close {
                out.push(close);
                i = i + 1;
            } else {
                depth = depth + 1;
                append_break(&mut out, depth, indent, newline);
            }
        } else if c == '}' || c == ']' {
            depth = depth.saturating_sub(1);
            append_break(&mut out, depth, indent, newline);
            out.push(c);
            i = i + 1;
        } else if c == ',' {
            out.push(c);
            append_break(&mut out, depth, indent, newline);
            i = i + 1;
        } else {
            out.push(c);
            if c == ':' {
                out.push(' ');
            }
            i = i + 1;
        }
        proof {
            assert(out@ + laid_from(s@, i as int, depth as nat, indent@, newline@) =~= before
                + rest);
        }
    }
    proof {
        assert(out@ + Seq::<char>::empty() =~= out@);
    }
    out
}

/// What comes of a text in which `flaw` was found, or none.
pub open spec fn json_outcome(
    flaw: Option<Seq<char>>,
    text: Seq<char>,
    indent: Seq<char>,
    newline: Seq<char>,
) -> Result<Seq<char>, Seq<char>> {
    match flaw {
        Some(flaw) => Err("Not valid JSON, left as it was: "@ + flaw),
        None => Ok(laid_out(text, indent, newline)),
    }
}

/// A result with its texts taken by their characters.
pub open spec fn texts(r: Result<String, String>) -> Result<Seq<char>, Seq<char>> {
    match r {
        Ok(text) => Ok(text@),
        Err(text) => Err(text@),
    }
}

/// Lays `text` out where no flaw was found in it.
pub fn json_checked(flaw: Option<String>, text: &str, indent: &str, newline: &str) -> (r: Result<
    String,
    String,
>)
    ensures
        flaw is None ==> texts(r) == json_outcome(None, text@, indent@, newline@),
        flaw matches Some(words) ==> texts(r) == json_outcome(
            Some(words@),
            text@,
            indent@,
            newline@,
        ),
{
    match flaw {
        Some(flaw) => {
            let mut words: Vec<char> = chars("Not valid JSON, left as it was: ");
            append_str(&mut words, flaw.as_str());
            Err(string(words.as_slice()))
        },
        None => {
            let text: Vec<char> = chars(text);
            let indent: Vec<char> = chars(indent);
            let newline: Vec<char> = chars(newline);
            let squeezed: Vec<char> = squeeze(text.as_slice());
            let mut out: Vec<char> = lay_out(
                squeezed.as_slice(),
                indent.as_slice(),
                newline.as_slice(),
            );
            append(&mut out, newline.as_slice());
            Ok(string(out.as_slice()))
        },
    }
}

/// Formats one JSON document, indenting by `indent` and ending lines with `newline`; text
/// that is none is refused.
pub fn json(text: &str, indent: &str, newline: &str) -> (r: Result<String, String>)
    ensures
        texts(r) == json_outcome(json_flaw(text@), text@, indent@, newline@),
        blank(indent@) && blank(newline@) ==> (r matches Ok(out) ==> significant(out@)
            == significant(text@)),
{
    let flaw: Option<String> = check_json(text);
    proof {
        if flaw is None && blank(indent@) && blank(newline@) {
            json_changes_only_white_space(text@, indent@, newline@);
        }
    }
    json_checked(flaw, text, indent, newline)
}

// ---------------------------------------------------------------------------------------
// What laying out keeps
// ---------------------------------------------------------------------------------------

proof fn lemma_close_before(a: Seq<char>, b: Seq<char>, j: int)
    requires
        0 <= j,
        close_quote(a, j) is Some,
    ensures
        close_quote(a + b, j) == close_quote(a, j),
    decreases a.len() + 1 - j,
{
    if j < a.len() {
        if a[j] == '\\' {
            lemma_close_before(a, b, j + 2);
        } else if a[j] != '"' {
            lemma_close_before(a, b, j + 1);
        }
    }
}

proof fn lemma_close_after(a: Seq<char>, b: Seq<char>, j: int)
    requires
        0 <= j,
    ensures
        close_quote(a + b, a.len() + j) == (match close_quote(b, j) {
            Some(end) => Some(a.len() + end),
            None => None::<int>,
        }),
    decreases b.len() + 1 - j,
{
    if j < b.len() {
        if b[j] == '\\' {
            lemma_close_after(a, b, j + 2);
        } else if b[j] != '"' {
            lemma_close_after(a, b, j + 1);
        }
    }
}

proof fn lemma_significant_after(a: Seq<char>, b: Seq<char>, i: int)
    requires
        0 <= i,
    ensures
        significant_from(a + b, a.len() + i) == significant_from(b, i),
        closed_from(a + b, a.len() + i) == closed_from(b, i),
    decreases b.len() - i,
{
    if i < b.len() {
        lemma_close_after(a, b, i + 1);
        lemma_close_quote(b, i + 1);
        if b[i] == '"' {
            lemma_significant_after(a, b, string_end(b, i));
            assert((a + b).subrange(a.len() + i, a.len() + string_end(b, i)) =~= b.subrange(
                i,
                string_end(b, i),
            ));
        } else {
            lemma_significant_after(a, b, i + 1);
        }
    }
}

proof fn lemma_significant_before(a: Seq<char>, b: Seq<char>, i: int)
    requires
        0 <= i <= a.len(),
        closed_from(a, i),
    ensures
        significant_from(a + b, i) == significant_from(a, i) + significant(b),
        closed_from(a + b, i) == strings_closed(b),
    decreases a.len() - i,
{
    if i < a.len() {
        lemma_close_quote(a, i + 1);
        if a[i] == '"' {
            lemma_close_before(a, b, i + 1);
            let end = string_end(a, i);
            lemma_significant_before(a, b, end);
            assert((a + b).subrange(i, end) =~= a.subrange(i, end));
            assert(significant_from(a + b, i) =~= significant_from(a, i) + significant(b));
        } else {
            lemma_significant_before(a, b, i + 1);
            assert(significant_from(a + b, i) =~= significant_from(a, i) + significant(b));
        }
    } else {
        lemma_significant_after(a, b, 0);
        assert(significant_from(a, i) + significant(b) =~= significant(b));
    }
}

/// White space between two texts whose strings are closed has no part in what is
/// significant: the parts are found one after the other.
pub proof fn significant_of_joined(a: Seq<char>, b: Seq<char>)
    requires
        strings_closed(a),
    ensures
        significant(a + b) == significant(a) + significant(b),
        strings_closed(a + b) == strings_closed(b),
{
    lemma_significant_before(a, b, 0);
}

proof fn lemma_blank(s: Seq<char>, i: int)
    requires
        0 <= i,
        blank(s),
    ensures
        significant_from(s, i) == Seq::<char>::empty(),
        closed_from(s, i),
    decreases s.len() - i,
{
    if i < s.len() {
        assert(is_space(s[i]));
        lemma_blank(s, i + 1);
    }
}

proof fn lemma_blank_repeated(part: Seq<char>, n: nat)
    requires
        blank(part),
    ensures
        blank(repeated(part, n)),
    decreases n,
{
    if n > 0 {
        lemma_blank_repeated(part, (n - 1) as nat);
    }
}

proof fn lemma_break(depth: nat, indent: Seq<char>, newline: Seq<char>)
    requires
        blank(indent),
        blank(newline),
    ensures
        significant(line_break(depth, indent, newline)) == Seq::<char>::empty(),
        strings_closed(line_break(depth, indent, newline)),
{
    lemma_blank_repeated(indent, depth);
    assert(blank(line_break(depth, indent, newline)));
    lemma_blank(line_break(depth, indent, newline), 0);
}

/// Squeezed text: closed strings, and no white space between them.
spec fn squeezed_from(s: Seq<char>, i: int) -> bool
    decreases s.len() - i,
    via squeezed_advances
{
    if i >= s.len() {
        true
    } else if s[i] == '"' {
        close_quote(s, i + 1) is Some && squeezed_from(s, string_end(s, i))
    } else {
        !is_space(s[i]) && squeezed_from(s, i + 1)
    }
}

#[via_fn]
proof fn squeezed_advances(s: Seq<char>, i: int) {
    if i < s.len() {
        lemma_close_quote(s, i + 1);
    }
}

proof fn lemma_squeezed_after(a: Seq<char>, b: Seq<char>, i: int)
    requires
        0 <= i,
    ensures
        squeezed_from(a + b, a.len() + i) == squeezed_from(b, i),
    decreases b.len() - i,
{
    if i < b.len() {
        lemma_close_after(a, b, i + 1);
        lemma_close_quote(b, i + 1);
        if b[i] == '"' {
            lemma_squeezed_after(a, b, string_end(b, i));
        } else {
            lemma_squeezed_after(a, b, i + 1);
        }
    }
}

/// A string cut out of a text reads as one string.
proof fn lemma_cut_string(s: Seq<char>, i: int, j: int, end: int)
    requires
        0 <= i <= j,
        close_quote(s, j) == Some(end),
    ensures
        close_quote(s.subrange(i, end), j - i) == Some(end - i),
    decreases s.len() - j,
{
    lemma_close_quote(s, j);
    let cut = s.subrange(i, end);
    assert(cut[j - i] == s[j]);
    if s[j] == '\\' {
        lemma_close_quote(s, j + 2);
        lemma_cut_string(s, i, j + 2, end);
    } else if s[j] != '"' {
        lemma_close_quote(s, j + 1);
        lemma_cut_string(s, i, j + 1, end);
    }
}

proof fn lemma_string_chunk(s: Seq<char>, i: int)
    requires
        0 <= i < s.len(),
        s[i] == '"',
        close_quote(s, i + 1) is Some,
    ensures
        significant(s.subrange(i, string_end(s, i))) == s.subrange(i, string_end(s, i)),
        strings_closed(s.subrange(i, string_end(s, i))),
        close_quote(s.subrange(i, string_end(s, i)), 1) == Some(string_end(s, i) - i),
        i + 1 < string_end(s, i) <= s.len(),
{
    let end = string_end(s, i);
    let chunk = s.subrange(i, end);
    lemma_close_quote(s, i + 1);
    lemma_cut_string(s, i, i + 1, end);
    assert(chunk[0] == '"');
    assert(chunk.subrange(0, chunk.len() as int) =~= chunk);
    assert(significant_from(chunk, chunk.len() as int) == Seq::<char>::empty());
    assert(closed_from(chunk, chunk.len() as int));
    assert(significant_from(chunk, 0) =~= chunk);
}

proof fn lemma_significant_squeezed(s: Seq<char>, i: int)
    requires
        0 <= i,
        closed_from(s, i),
    ensures
        squeezed_from(significant_from(s, i), 0),
    decreases s.len() - i,
{
    if i < s.len() {
        lemma_close_quote(s, i + 1);
        if s[i] == '"' {
            let end = string_end(s, i);
            let chunk = s.subrange(i, end);
            let rest = significant_from(s, end);
            lemma_string_chunk(s, i);
            lemma_significant_squeezed(s, end);
            lemma_close_before(chunk, rest, 1);
            lemma_squeezed_after(chunk, rest, 0);
            assert((chunk + rest)[0] == '"');
        } else if is_space(s[i]) {
            lemma_significant_squeezed(s, i + 1);
        } else {
            let rest = significant_from(s, i + 1);
            lemma_significant_squeezed(s, i + 1);
            lemma_squeezed_after(seq![s[i]], rest, 0);
            assert((seq![s[i]] + rest)[0] == s[i]);
        }
    }
}

proof fn lemma_char_chunk(c: char)
    requires
        c != '"',
        !is_space(c),
    ensures
        significant(seq![c]) == seq![c],
        strings_closed(seq![c]),
{
    let s = seq![c];
    assert(significant_from(s, 1) == Seq::<char>::empty());
    assert(closed_from(s, 1));
    assert(significant_from(s, 0) =~= s);
}

/// A piece whose significant text is `s[i..next]`, then the layout of the rest.
proof fn lemma_piece(piece: Seq<char>, rest: Seq<char>, s: Seq<char>, i: int, next: int)
    requires
        0 <= i <= next <= s.len(),
        strings_closed(piece),
        significant(piece) == s.subrange(i, next),
        significant(rest) == s.subrange(next, s.len() as int),
        strings_closed(rest),
    ensures
        significant(piece + rest) == s.subrange(i, s.len() as int),
        strings_closed(piece + rest),
{
    significant_of_joined(piece, rest);
    assert(s.subrange(i, next) + s.subrange(next, s.len() as int) =~= s.subrange(
        i,
        s.len() as int,
    ));
}

proof fn lemma_laid(s: Seq<char>, i: int, depth: nat, indent: Seq<char>, newline: Seq<char>)
    requires
        0 <= i <= s.len(),
        squeezed_from(s, i),
        blank(indent),
        blank(newline),
    ensures
        significant(laid_from(s, i, depth, indent, newline)) == s.subrange(i, s.len() as int),
        strings_closed(laid_from(s, i, depth, indent, newline)),
    decreases s.len() - i,
{
    if i >= s.len() {
        assert(s.subrange(i, s.len() as int) =~= Seq::<char>::empty());
    } else if s[i] == '"' {
        let end = string_end(s, i);
        lemma_string_chunk(s, i);
        lemma_laid(s, end, depth, indent, newline);
        lemma_piece(s.subrange(i, end), laid_from(s, end, depth, indent, newline), s, i, end);
    } else {
        let one = seq![s[i]];
        lemma_char_chunk(s[i]);
        assert(one =~= s.subrange(i, i + 1));
        if s[i] == '{' || s[i] == '[' {
            if i + 1 < s.len() && s[i + 1] == closing(s[i]) {
                let two = seq![s[i], s[i + 1]];
                lemma_char_chunk(s[i + 1]);
                significant_of_joined(one, seq![s[i + 1]]);
                assert(one + seq![s[i + 1]] =~= two);
                assert(two =~= s.subrange(i, i + 2));
                assert(squeezed_from(s, i + 1));
                lemma_laid(s, i + 2, depth, indent, newline);
                lemma_piece(two, laid_from(s, i + 2, depth, indent, newline), s, i, i + 2);
            } else {
                let gap = line_break(depth + 1, indent, newline);
                lemma_break(depth + 1, indent, newline);
                significant_of_joined(one, gap);
                assert(one + Seq::<char>::empty() =~= one);
                lemma_laid(s, i + 1, depth + 1, indent, newline);
                lemma_piece(
                    one + gap,
                    laid_from(s, i + 1, depth + 1, indent, newline),
                    s,
                    i,
                    i + 1,
                );
            }
        } else if s[i] == '}' || s[i] == ']' {
            let outer = if depth == 0 {
                0
            } else {
                (depth - 1) as nat
            };
            let gap = line_break(outer, indent, newline);
            lemma_break(outer, indent, newline);
            significant_of_joined(gap, one);
            assert(Seq::<char>::empty() + one =~= one);
            lemma_laid(s, i + 1, outer, indent, newline);
            lemma_piece(gap + one, laid_from(s, i + 1, outer, indent, newline), s, i, i + 1);
        } else if s[i] == ',' {
            let gap = line_break(depth, indent, newline);
            lemma_break(depth, indent, newline);
            significant_of_joined(one, gap);
            assert(one + Seq::<char>::empty() =~= one);
            lemma_laid(s, i + 1, depth, indent, newline);
            lemma_piece(one + gap, laid_from(s, i + 1, depth, indent, newline), s, i, i + 1);
        } else if s[i] == ':' {
            let space = seq![' '];
            lemma_blank(space, 0);
            significant_of_joined(one, space);
            assert(one + Seq::<char>::empty() =~= one);
            assert(one + space =~= seq![':', ' ']);
            lemma_laid(s, i + 1, depth, indent, newline);
            lemma_piece(one + space, laid_from(s, i + 1, depth, indent, newline), s, i, i + 1);
        } else {
            lemma_laid(s, i + 1, depth, indent, newline);
            lemma_piece(one, laid_from(s, i + 1, depth, indent, newline), s, i, i + 1);
        }
    }
}

/// Laying out changes nothing but white space outside strings: numbers, escapes, names and
/// their order come out exactly as they went in.
pub proof fn json_changes_only_white_space(text: Seq<char>, indent: Seq<char>, newline: Seq<char>)
    requires
        strings_closed(text),
        blank(indent),
        blank(newline),
    ensures
        significant(laid_out(text, indent, newline)) == significant(text),
        strings_closed(laid_out(text, indent, newline)),
{
    let s = significant(text);
    lemma_significant_squeezed(text, 0);
    lemma_laid(s, 0, 0, indent, newline);
    lemma_blank(newline, 0);
    significant_of_joined(laid_from(s, 0, 0, indent, newline), newline);
    assert(s.subrange(0, s.len() as int) + Seq::<char>::empty() =~= s);
}

/// What has been laid out is left as it is by laying it out again.
pub proof fn json_layout_is_settled(text: Seq<char>, indent: Seq<char>, newline: Seq<char>)
    requires
        strings_closed(text),
        blank(indent),
        blank(newline),
    ensures
        laid_out(laid_out(text, indent, newline), indent, newline) == laid_out(
            text,
            indent,
            newline,
        ),
{
    json_changes_only_white_space(text, indent, newline);
}

} // verus!
