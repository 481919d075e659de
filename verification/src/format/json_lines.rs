//! Where the lines of laid out JSON break, and how far in each stands.

use crate::format::json::{closing, laid_from, laid_out, lemma_close_quote, significant, string_end};
use crate::text::repeated;
use vstd::prelude::*;

verus! {

/// The tokens of squeezed text from `i` on: a string is one, and so is any other character.
pub open spec fn tokens_from(s: Seq<char>, i: int) -> Seq<Seq<char>>
    decreases s.len() - i,
    via tokens_advance
{
    if i >= s.len() {
        Seq::empty()
    } else if s[i] == '"' {
        seq![s.subrange(i, string_end(s, i))] + tokens_from(s, string_end(s, i))
    } else {
        seq![seq![s[i]]] + tokens_from(s, i + 1)
    }
}

#[via_fn]
proof fn tokens_advance(s: Seq<char>, i: int) {
    if i < s.len() {
        lemma_close_quote(s, i + 1);
    }
}

/// The tokens of a JSON document, white space left out.
pub open spec fn tokens(text: Seq<char>) -> Seq<Seq<char>> {
    tokens_from(significant(text), 0)
}

pub open spec fn opens(token: Seq<char>) -> bool {
    token == seq!['{'] || token == seq!['[']
}

pub open spec fn closes(token: Seq<char>) -> bool {
    token == seq!['}'] || token == seq![']']
}

/// Whether two tokens are an object or a list with nothing in it.
pub open spec fn empty_pair(a: Seq<char>, b: Seq<char>) -> bool {
    (a == seq!['{'] && b == seq!['}']) || (a == seq!['['] && b == seq![']'])
}

/// How many objects and lists the first `n` tokens leave open.
pub open spec fn open_after(tokens: Seq<Seq<char>>, n: int) -> nat
    decreases n,
{
    if n <= 0 {
        0
    } else if opens(tokens[n - 1]) {
        open_after(tokens, n - 1) + 1
    } else if closes(tokens[n - 1]) && open_after(tokens, n - 1) > 0 {
        (open_after(tokens, n - 1) - 1) as nat
    } else {
        open_after(tokens, n - 1)
    }
}

/// What is written in front of token `k`: a closing bracket begins a line, as far in as what it
/// closes is, unless there is nothing in between.
pub open spec fn written_before(
    tokens: Seq<Seq<char>>,
    k: int,
    indent: Seq<char>,
    newline: Seq<char>,
) -> Seq<char> {
    if closes(tokens[k]) && !(k > 0 && empty_pair(tokens[k - 1], tokens[k])) {
        newline + repeated(indent, open_after(tokens, k + 1))
    } else {
        Seq::empty()
    }
}

/// What is written behind token `k`: a line ends behind an opening bracket and behind a comma,
/// and the next is as far in as there are brackets open; a colon has a space behind it.
pub open spec fn written_behind(
    tokens: Seq<Seq<char>>,
    k: int,
    indent: Seq<char>,
    newline: Seq<char>,
) -> Seq<char> {
    if tokens[k] == seq![','] || (opens(tokens[k]) && !(k + 1 < tokens.len() && empty_pair(
        tokens[k],
        tokens[k + 1],
    ))) {
        newline + repeated(indent, open_after(tokens, k + 1))
    } else if tokens[k] == seq![':'] {
        seq![' ']
    } else {
        Seq::empty()
    }
}

/// The tokens from `k` on, each with what is written round it.
pub open spec fn written_from(
    tokens: Seq<Seq<char>>,
    k: int,
    indent: Seq<char>,
    newline: Seq<char>,
) -> Seq<char>
    decreases tokens.len() - k,
{
    if k >= tokens.len() {
        Seq::empty()
    } else {
        written_before(tokens, k, indent, newline) + tokens[k] + written_behind(
            tokens,
            k,
            indent,
            newline,
        ) + written_from(tokens, k + 1, indent, newline)
    }
}

/// The token at a place of the text begins with what stands there.
proof fn lemma_token(s: Seq<char>, i: int)
    requires
        0 <= i < s.len(),
    ensures
        tokens_from(s, i).len() > 0,
        tokens_from(s, i)[0].len() > 0,
        tokens_from(s, i)[0][0] == s[i],
        s[i] != '"' ==> tokens_from(s, i)[0] == seq![s[i]],
        s[i] == '"' ==> tokens_from(s, i)[0] == s.subrange(i, string_end(s, i)),
        tokens_from(s, i).skip(1) == tokens_from(
            s,
            if s[i] == '"' {
                string_end(s, i)
            } else {
                i + 1
            },
        ),
{
    lemma_close_quote(s, i + 1);
    let next = if s[i] == '"' {
        string_end(s, i)
    } else {
        i + 1
    };
    assert(tokens_from(s, i).skip(1) =~= tokens_from(s, next));
}

#[verifier::rlimit(60)]
proof fn lemma_written(
    s: Seq<char>,
    i: int,
    all: Seq<Seq<char>>,
    k: int,
    indent: Seq<char>,
    newline: Seq<char>,
)
    requires
        0 <= i <= s.len(),
        0 <= k <= all.len(),
        all.skip(k) == tokens_from(s, i),
        k > 0 && i < s.len() && closes(all[k]) ==> !empty_pair(all[k - 1], all[k]),
    ensures
        laid_from(s, i, open_after(all, k), indent, newline) == written_from(
            all,
            k,
            indent,
            newline,
        ),
    decreases s.len() - i,
{
    if i < s.len() {
        lemma_token(s, i);
        lemma_close_quote(s, i + 1);
        assert(all.len() > k);
        assert(all[k] == all.skip(k)[0]);
        assert(all.skip(k).skip(1) =~= all.skip(k + 1));
        let depth = open_after(all, k);
        let next = if s[i] == '"' {
            string_end(s, i)
        } else {
            i + 1
        };
        assert(all.skip(k + 1) == tokens_from(s, next));
        if next < s.len() {
            lemma_token(s, next);
            assert(all.len() > k + 1);
            assert(all[k + 1] == all.skip(k + 1)[0]);
        } else {
            assert(all.skip(k + 1).len() == 0);
        }
        if s[i] == '"' {
            assert(all[k][0] == '"');
            lemma_written(s, next, all, k + 1, indent, newline);
        } else if (s[i] == '{' || s[i] == '[') && i + 1 < s.len() && s[i + 1] == closing(s[i]) {
            assert(all[k + 1] == seq![s[i + 1]]);
            assert(empty_pair(all[k], all[k + 1]));
            assert(all.skip(k + 1).skip(1) =~= all.skip(k + 2));
            assert(open_after(all, k + 1) == depth + 1);
            assert(open_after(all, k + 2) == depth);
            if i + 2 < s.len() {
                lemma_token(s, i + 2);
                assert(all.skip(k + 2) == tokens_from(s, i + 2));
                assert(all[k + 2] == all.skip(k + 2)[0]);
            }
            lemma_written(s, i + 2, all, k + 2, indent, newline);
            assert(written_from(all, k, indent, newline) == written_before(
                all,
                k,
                indent,
                newline,
            ) + all[k] + written_behind(all, k, indent, newline) + written_from(
                all,
                k + 1,
                indent,
                newline,
            ));
            assert(written_from(all, k + 1, indent, newline) == written_before(
                all,
                k + 1,
                indent,
                newline,
            ) + all[k + 1] + written_behind(all, k + 1, indent, newline) + written_from(
                all,
                k + 2,
                indent,
                newline,
            ));
            assert(written_from(all, k, indent, newline) =~= seq![s[i], s[i + 1]]
                + written_from(all, k + 2, indent, newline));
        } else {
            assert(all[k][0] == s[i]);
            if next < s.len() && closes(all[k + 1]) {
                assert(all[k + 1][0] == s[i + 1]);
            }
            lemma_written(s, next, all, k + 1, indent, newline);
        }
        assert(laid_from(s, i, depth, indent, newline) =~= written_from(all, k, indent, newline));
    } else {
        assert(all.skip(k).len() == 0);
    }
}

/// A document is laid out one element to a line. A line ends behind an opening bracket and
/// behind a comma, and begins with `indent` as often as there are objects and lists open
/// around it; a closing bracket stands on a line of its own, as far in as what it closes. What
/// has nothing in it stays on its line, a colon has a space behind it, and nothing else is
/// written.
pub proof fn every_element_stands_at_its_depth(
    text: Seq<char>,
    indent: Seq<char>,
    newline: Seq<char>,
)
    ensures
        laid_out(text, indent, newline) == written_from(tokens(text), 0, indent, newline) + newline,
{
    let s = significant(text);
    let all = tokens(text);
    assert(all.skip(0) =~= all);
    lemma_written(s, 0, all, 0, indent, newline);
}

/// A bracket and the one that closes it stand on lines with the same indentation, and the lines
/// in between have at least one `indent` more.
pub proof fn brackets_that_match_stand_on_one_column(
    tokens: Seq<Seq<char>>,
    a: int,
    b: int,
    indent: Seq<char>,
    newline: Seq<char>,
)
    requires
        0 <= a,
        a + 1 < b < tokens.len(),
        opens(tokens[a]),
        closes(tokens[b]),
        !empty_pair(tokens[b - 1], tokens[b]),
        open_after(tokens, b + 1) == open_after(tokens, a),
        forall|k: int| a < k <= b ==> #[trigger] open_after(tokens, k) > open_after(tokens, a),
    ensures
        written_before(tokens, b, indent, newline) == newline + repeated(
            indent,
            open_after(tokens, a),
        ),
        !empty_pair(tokens[a], tokens[a + 1]) ==> written_behind(tokens, a, indent, newline)
            == newline + repeated(indent, open_after(tokens, a) + 1),
{
}

} // verus!
