//! Narrowing a list by the words typed for it.

use crate::text::{append_str, chars, find_text, first_space, found, lemma_first_space, lemma_skip_space,
    next_space, past_space, skip_space, string};
use vstd::prelude::*;
use vstd::slice::slice_subrange;

verus! {

/// The words of a text from `i` on: what white space parts.
pub open spec fn words_from(s: Seq<char>, i: int) -> Seq<Seq<char>>
    decreases s.len() - i,
    via words_advance
{
    let start = skip_space(s, i);
    let end = first_space(s, start);
    if i < 0 || start >= s.len() {
        Seq::empty()
    } else {
        seq![s.subrange(start, end)] + words_from(s, end)
    }
}

#[via_fn]
proof fn words_advance(s: Seq<char>, i: int) {
    if 0 <= i < s.len() {
        lemma_skip_space(s, i);
        lemma_first_space(s, skip_space(s, i));
    }
}

/// The words of a text.
pub open spec fn words_of(s: Seq<char>) -> Seq<Seq<char>> {
    words_from(s, 0)
}

/// Whether `part` stands somewhere in a text.
pub open spec fn contains(s: Seq<char>, part: Seq<char>) -> bool {
    found(s, part, 0) is Some
}

/// Whether a text has every one of the words.
pub open spec fn answers(s: Seq<char>, words: Seq<Seq<char>>) -> bool {
    forall|i: int| 0 <= i < words.len() ==> contains(s, #[trigger] words[i])
}

/// The texts among the first `n` that have every one of the words, by number.
pub open spec fn answering(texts: Seq<Seq<char>>, words: Seq<Seq<char>>, n: nat) -> Seq<usize>
    decreases n,
{
    if n == 0 {
        Seq::empty()
    } else {
        let before = answering(texts, words, (n - 1) as nat);
        if answers(texts[n - 1], words) {
            before.push((n - 1) as usize)
        } else {
            before
        }
    }
}

pub fn split_words(s: &[char]) -> (r: Vec<String>)
    ensures
        r.deep_view() == words_of(s@),
{
    let mut words: Vec<String> = Vec::new();
    let mut i: usize = 0;
    proof {
        assert(words.deep_view() + words_of(s@) =~= words_of(s@));
    }
    loop
        invariant
            i <= s@.len(),
            words.deep_view() + words_from(s@, i as int) == words_of(s@),
        decreases s@.len() - i,
    {
        proof {
            lemma_skip_space(s@, i as int);
            lemma_first_space(s@, skip_space(s@, i as int));
        }
        let start: usize = past_space(s, i);
        if start == s.len() {
            proof {
                assert(words.deep_view() + Seq::empty() =~= words.deep_view());
            }
            return words;
        }
        let end: usize = next_space(s, start);
        let ghost before = words.deep_view();
        let word: String = string(slice_subrange(s, start, end));
        words.push(word);
        proof {
            assert(words.deep_view() =~= before.push(word@));
            assert(words.deep_view() + words_from(s@, end as int) =~= before + words_from(
                s@,
                i as int,
            ));
        }
        i = end;
    }
}

pub fn has_words(text: &str, words: &Vec<String>) -> (r: bool)
    ensures
        r == answers(text@, words.deep_view()),
{
    let letters: Vec<char> = chars(text);
    let mut n: usize = 0;
    while n < words.len()
        invariant
            n <= words@.len(),
            letters@ == text@,
            forall|i: int| 0 <= i < n ==> contains(text@, #[trigger] words.deep_view()[i]),
        decreases words@.len() - n,
    {
        let word: Vec<char> = chars(words[n].as_str());
        if find_text(letters.as_slice(), word.as_slice(), 0).is_none() {
            proof {
                assert(!contains(text@, words.deep_view()[n as int]));
            }
            return false;
        }
        n = n + 1;
    }
    true
}

/// The texts that have every word of `query`, by number; both are in small letters.
pub fn filtered(query: &str, texts: &Vec<String>) -> (r: Vec<usize>)
    ensures
        r@ == answering(texts.deep_view(), words_of(query@), texts@.len()),
{
    let letters: Vec<char> = chars(query);
    let words: Vec<String> = split_words(letters.as_slice());
    let ghost all = texts.deep_view();
    let mut shown: Vec<usize> = Vec::new();
    let mut n: usize = 0;
    while n < texts.len()
        invariant
            n <= texts@.len(),
            all == texts.deep_view(),
            words.deep_view() == words_of(query@),
            shown@ == answering(all, words_of(query@), n as nat),
        decreases texts@.len() - n,
    {
        proof {
            assert(all[n as int] == texts@[n as int]@);
        }
        if has_words(texts[n].as_str(), &words) {
            shown.push(n);
        }
        n = n + 1;
    }
    shown
}

/// The line that shows what has been typed, with the caret behind it.
pub fn filter_line(query: &str) -> (r: String)
    ensures
        r@ == "Filter: "@ + query@ + "▏"@,
{
    let mut line: Vec<char> = chars("Filter: ");
    append_str(&mut line, query);
    append_str(&mut line, "▏");
    string(line.as_slice())
}

/// What is shown is there, in order, and has every word typed; nothing that has them is
/// left out.
pub proof fn the_filter_shows_what_answers(
    texts: Seq<Seq<char>>,
    words: Seq<Seq<char>>,
    n: nat,
)
    requires
        n <= texts.len() <= usize::MAX,
    ensures
        forall|i: int|
            0 <= i < answering(texts, words, n).len() ==> (#[trigger] answering(texts, words, n)[i])
                < n && answers(texts[answering(texts, words, n)[i] as int], words),
        forall|i: int, j: int|
            0 <= i < j < answering(texts, words, n).len() ==> #[trigger] answering(
                texts,
                words,
                n,
            )[i] < #[trigger] answering(texts, words, n)[j],
        forall|k: int|
            0 <= k < n && answers(#[trigger] texts[k], words) ==> answering(
                texts,
                words,
                n,
            ).contains(k as usize),
    decreases n,
{
    if n > 0 {
        the_filter_shows_what_answers(texts, words, (n - 1) as nat);
        let before = answering(texts, words, (n - 1) as nat);
        let after = answering(texts, words, n);
        assert forall|k: int| 0 <= k < n && answers(#[trigger] texts[k], words) implies after.contains(
            k as usize,
        ) by {
            if k < n - 1 {
                let i = choose|i: int| 0 <= i < before.len() && before[i] == k as usize;
                assert(after[i] == k as usize);
            } else {
                assert(after[after.len() - 1] == k as usize);
            }
        }
    }
}

} // verus!
