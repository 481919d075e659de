//! What writing line breaks another way keeps of a text.

use crate::format::xml::{breaks, broken_from};
use crate::text::{blank, is_space};
use vstd::prelude::*;

verus! {

/// A character of a line break.
pub open spec fn is_break(c: char) -> bool {
    c == '\n' || c == '\r'
}

/// One line break, as it can be written.
pub open spec fn is_newline(s: Seq<char>) -> bool {
    s == seq!['\n'] || s == seq!['\r', '\n'] || s == seq!['\r']
}

/// A text without line breaks.
pub open spec fn unbroken(s: Seq<char>) -> bool {
    forall|i: int| 0 <= i < s.len() ==> !is_break(#[trigger] s[i])
}

/// The text with every line break in it as `newline`.
pub open spec fn norm(s: Seq<char>, newline: Seq<char>) -> Seq<char> {
    broken_from(s, 0, newline)
}

/// Whether a text can be cut in two without cutting a line break in two.
pub open spec fn parts_well(a: Seq<char>, b: Seq<char>) -> bool {
    !(a.len() > 0 && b.len() > 0 && a.last() == '\r' && b[0] == '\n')
}

pub proof fn lemma_skip(s: Seq<char>, i: int, k: int, newline: Seq<char>)
    requires
        0 <= i <= s.len(),
        0 <= k,
    ensures
        broken_from(s, i + k, newline) == broken_from(s.subrange(i, s.len() as int), k, newline),
    decreases s.len() - i - k,
{
    let t = s.subrange(i, s.len() as int);
    if k < t.len() {
        assert(t[k] == s[i + k]);
        if k + 1 < t.len() {
            assert(t[k + 1] == s[i + k + 1]);
            lemma_skip(s, i, k + 2, newline);
        }
        lemma_skip(s, i, k + 1, newline);
    }
}

proof fn lemma_split_from(a: Seq<char>, b: Seq<char>, i: int, newline: Seq<char>)
    requires
        parts_well(a, b),
        0 <= i <= a.len(),
    ensures
        broken_from(a + b, i, newline) == broken_from(a, i, newline) + norm(b, newline),
    decreases a.len() - i,
{
    let both = a + b;
    if i == a.len() {
        lemma_skip(both, i, 0, newline);
        assert(both.subrange(i, both.len() as int) =~= b);
        assert(broken_from(a, i, newline) + norm(b, newline) =~= norm(b, newline));
    } else {
        assert(both[i] == a[i]);
        lemma_split_from(a, b, i + 1, newline);
        if a[i] == '\r' && i + 1 < both.len() && both[i + 1] == '\n' {
            if i + 1 < a.len() {
                assert(both[i + 1] == a[i + 1]);
                lemma_split_from(a, b, i + 2, newline);
                assert(broken_from(both, i, newline) =~= broken_from(a, i, newline) + norm(
                    b,
                    newline,
                ));
            } else {
                assert(both[i + 1] == b[0]);
                assert(a.last() == '\r');
            }
        } else {
            if i + 1 < a.len() {
                assert(both[i + 1] == a[i + 1]);
            }
            assert(broken_from(both, i, newline) =~= broken_from(a, i, newline) + norm(b, newline));
        }
    }
}

/// Two texts written one behind the other, each with its line breaks another way.
pub proof fn lemma_split(a: Seq<char>, b: Seq<char>, newline: Seq<char>)
    requires
        parts_well(a, b),
    ensures
        norm(a + b, newline) == norm(a, newline) + norm(b, newline),
{
    lemma_split_from(a, b, 0, newline);
}

/// A text from a place on, cut in two where no line break is.
pub proof fn lemma_split_at(s: Seq<char>, i: int, k: int, newline: Seq<char>)
    requires
        0 <= i <= k <= s.len(),
        k < s.len() ==> s[k] != '\n',
    ensures
        broken_from(s, i, newline) == norm(s.subrange(i, k), newline) + broken_from(s, k, newline),
{
    let a = s.subrange(i, k);
    let b = s.subrange(k, s.len() as int);
    assert(s.subrange(i, s.len() as int) =~= a + b);
    lemma_skip(s, i, 0, newline);
    lemma_skip(s, k, 0, newline);
    lemma_split(a, b, newline);
}

pub proof fn lemma_unbroken(s: Seq<char>, i: int, newline: Seq<char>)
    requires
        unbroken(s),
        0 <= i <= s.len(),
    ensures
        broken_from(s, i, newline) == s.subrange(i, s.len() as int),
    decreases s.len() - i,
{
    if i < s.len() {
        lemma_unbroken(s, i + 1, newline);
        assert(!is_break(s[i]));
    }
    assert(broken_from(s, i, newline) =~= s.subrange(i, s.len() as int));
}

/// A text without line breaks stays as it is.
pub proof fn lemma_kept(s: Seq<char>, newline: Seq<char>)
    requires
        unbroken(s),
    ensures
        norm(s, newline) == s,
{
    lemma_unbroken(s, 0, newline);
    assert(s.subrange(0, s.len() as int) =~= s);
}

/// One character in front that is no part of a line break.
pub proof fn lemma_front(c: char, s: Seq<char>, newline: Seq<char>)
    requires
        !is_break(c),
    ensures
        norm(seq![c] + s, newline) == seq![c] + norm(s, newline),
{
    lemma_split(seq![c], s, newline);
    lemma_kept(seq![c], newline);
}

/// One character behind that is no part of a line break.
pub proof fn lemma_behind(s: Seq<char>, c: char, newline: Seq<char>)
    requires
        !is_break(c),
    ensures
        norm(s.push(c), newline) == norm(s, newline).push(c),
{
    assert(s.push(c) =~= s + seq![c]);
    lemma_split(s, seq![c], newline);
    lemma_kept(seq![c], newline);
    assert(norm(s, newline) + seq![c] =~= norm(s, newline).push(c));
}

/// The characters of a line break, written one way or another.
pub proof fn lemma_newline(newline: Seq<char>)
    requires
        is_newline(newline),
    ensures
        0 < newline.len() <= 2,
        forall|i: int| 0 <= i < newline.len() ==> is_break(#[trigger] newline[i]),
        blank(newline),
        breaks(newline),
        norm(newline, newline) == newline,
{
    reveal_with_fuel(broken_from, 3);
    let a = seq!['\n'];
    let b = seq!['\r', '\n'];
    let c = seq!['\r'];
    assert forall|i: int| 0 <= i < newline.len() implies is_break(#[trigger] newline[i]) by {}
    assert(newline.len() > 0);
    if newline == c {
        assert(newline[0] == '\r');
        assert(newline.contains('\r'));
    } else {
        assert(newline.last() == '\n');
        assert(newline.contains('\n'));
    }
    assert(norm(newline, newline) =~= newline);
}

/// The first character written another way is the one it was, or one of a line break where it
/// was one.
pub proof fn lemma_first_char(s: Seq<char>, i: int, newline: Seq<char>)
    requires
        is_newline(newline),
        0 <= i < s.len(),
    ensures
        ({
            let b = broken_from(s, i, newline);
            &&& b.len() > 0
            &&& is_break(b[0]) == is_break(s[i])
            &&& !is_break(s[i]) ==> b[0] == s[i] && b == seq![s[i]] + broken_from(
                s,
                i + 1,
                newline,
            )
        }),
{
    lemma_newline(newline);
}

/// The characters that are no part of a line break stand in a text however its line breaks are
/// written.
pub proof fn lemma_contains(s: Seq<char>, i: int, c: char, newline: Seq<char>)
    requires
        is_newline(newline),
        0 <= i <= s.len(),
        !is_break(c),
    ensures
        broken_from(s, i, newline).contains(c) == s.subrange(i, s.len() as int).contains(c),
    decreases s.len() - i,
{
    lemma_newline(newline);
    let b = broken_from(s, i, newline);
    let t = s.subrange(i, s.len() as int);
    if i < s.len() {
        let step = if s[i] == '\r' && i + 1 < s.len() && s[i + 1] == '\n' {
            2
        } else {
            1int
        };
        lemma_contains(s, i + step, c, newline);
        let rest = broken_from(s, i + step, newline);
        let u = s.subrange(i + step, s.len() as int);
        let head = if is_break(s[i]) {
            newline
        } else {
            seq![s[i]]
        };
        assert(b == head + rest);
        if rest.contains(c) {
            let k = choose|k: int| 0 <= k < rest.len() && rest[k] == c;
            assert(b[head.len() + k] == c);
        }
        if u.contains(c) {
            let k = choose|k: int| 0 <= k < u.len() && u[k] == c;
            assert(t[step + k] == c);
        }
        if b.contains(c) {
            let k = choose|k: int| 0 <= k < b.len() && b[k] == c;
            if k >= head.len() {
                assert(rest[k - head.len()] == c);
            } else {
                assert(head[k] == c);
                assert(t[0] == c);
            }
        }
        if t.contains(c) {
            let k = choose|k: int| 0 <= k < t.len() && t[k] == c;
            if k >= step {
                assert(u[k - step] == c);
            } else {
                assert(k == 0);
                assert(b[0] == c);
            }
        }
    } else {
        assert(b.len() == 0 && t.len() == 0);
    }
}

/// White space stays white space, and a text with line breaks has some, however they are
/// written.
pub proof fn lemma_blank(s: Seq<char>, i: int, newline: Seq<char>)
    requires
        is_newline(newline),
        0 <= i <= s.len(),
    ensures
        blank(broken_from(s, i, newline)) == blank(s.subrange(i, s.len() as int)),
        breaks(broken_from(s, i, newline)) == breaks(s.subrange(i, s.len() as int)),
        (broken_from(s, i, newline).len() == 0) == (i == s.len()),
    decreases s.len() - i,
{
    lemma_newline(newline);
    let b = broken_from(s, i, newline);
    let t = s.subrange(i, s.len() as int);
    if i < s.len() {
        let step = if s[i] == '\r' && i + 1 < s.len() && s[i + 1] == '\n' {
            2
        } else {
            1int
        };
        lemma_blank(s, i + step, newline);
        let rest = broken_from(s, i + step, newline);
        let u = s.subrange(i + step, s.len() as int);
        let head = if is_break(s[i]) {
            newline
        } else {
            seq![s[i]]
        };
        assert(b == head + rest);
        assert(t =~= t.take(step) + u);
        lemma_both(head, rest);
        lemma_both(t.take(step), u);
        assert(blank(head) == blank(t.take(step))) by {
            assert(t.take(step)[0] == s[i]);
            if is_break(s[i]) {
                if step == 2 {
                    assert(t.take(step)[1] == s[i + 1]);
                }
            } else {
                assert(head[0] == s[i]);
                if blank(head) {
                    assert(is_space(head[0]));
                }
                if blank(t.take(step)) {
                    assert(is_space(t.take(step)[0]));
                }
            }
        }
        assert(breaks(head) == breaks(t.take(step))) by {
            assert(t.take(step)[0] == s[i]);
            if is_break(s[i]) {
                assert(t.take(step).contains(s[i]));
            } else {
                assert(!head.contains('\n') && !head.contains('\r'));
                assert(!t.take(step).contains('\n') && !t.take(step).contains('\r'));
            }
        }
    } else {
        assert(b.len() == 0 && t.len() == 0);
    }
}

/// What holds of two texts one behind the other.
pub proof fn lemma_both(a: Seq<char>, b: Seq<char>)
    ensures
        blank(a + b) == (blank(a) && blank(b)),
        breaks(a + b) == (breaks(a) || breaks(b)),
{
    let both = a + b;
    if blank(both) {
        assert forall|k: int| 0 <= k < a.len() implies is_space(#[trigger] a[k]) by {
            assert(both[k] == a[k]);
        }
        assert forall|k: int| 0 <= k < b.len() implies is_space(#[trigger] b[k]) by {
            assert(both[a.len() + k] == b[k]);
        }
    }
    lemma_both_contain(a, b, '\n');
    lemma_both_contain(a, b, '\r');
}

pub proof fn lemma_both_contain(a: Seq<char>, b: Seq<char>, c: char)
    ensures
        (a + b).contains(c) == (a.contains(c) || b.contains(c)),
{
    let both = a + b;
    if a.contains(c) {
        let k = choose|k: int| 0 <= k < a.len() && a[k] == c;
        assert(both[k] == c);
    }
    if b.contains(c) {
        let k = choose|k: int| 0 <= k < b.len() && b[k] == c;
        assert(both[a.len() + k] == c);
    }
    if both.contains(c) {
        let k = choose|k: int| 0 <= k < both.len() && both[k] == c;
        if k < a.len() {
            assert(a[k] == c);
        } else {
            assert(b[k - a.len()] == c);
        }
    }
}

/// A text that comes out without line breaks had none.
pub proof fn lemma_came_unbroken(s: Seq<char>, newline: Seq<char>)
    requires
        is_newline(newline),
        unbroken(norm(s, newline)),
    ensures
        unbroken(s),
        norm(s, newline) == s,
{
    lemma_blank(s, 0, newline);
    assert(s.subrange(0, s.len() as int) =~= s);
    let b = norm(s, newline);
    if breaks(b) {
        if b.contains('\n') {
            let k = choose|k: int| 0 <= k < b.len() && b[k] == '\n';
            assert(is_break(b[k]));
        } else {
            let k = choose|k: int| 0 <= k < b.len() && b[k] == '\r';
            assert(is_break(b[k]));
        }
    }
    assert forall|k: int| 0 <= k < s.len() implies !is_break(#[trigger] s[k]) by {
        if is_break(s[k]) {
            assert(s.contains(s[k]));
        }
    }
    lemma_kept(s, newline);
}

/// Writing line breaks the same way once more changes nothing.
pub proof fn lemma_norm_again(s: Seq<char>, i: int, newline: Seq<char>)
    requires
        is_newline(newline),
        0 <= i <= s.len(),
    ensures
        norm(broken_from(s, i, newline), newline) == broken_from(s, i, newline),
        newline == seq!['\r'] ==> !broken_from(s, i, newline).contains('\n'),
    decreases s.len() - i,
{
    lemma_newline(newline);
    let b = broken_from(s, i, newline);
    if i < s.len() {
        let step = if s[i] == '\r' && i + 1 < s.len() && s[i + 1] == '\n' {
            2
        } else {
            1int
        };
        lemma_norm_again(s, i + step, newline);
        let rest = broken_from(s, i + step, newline);
        if is_break(s[i]) {
            assert(b == newline + rest);
            if newline == seq!['\r'] {
                if rest.len() > 0 && rest[0] == '\n' {
                    assert(rest.contains('\n'));
                }
            } else {
                assert(newline.last() == '\n');
            }
            lemma_split(newline, rest, newline);
            lemma_both_contain(newline, rest, '\n');
        } else {
            assert(b == seq![s[i]] + rest);
            lemma_front(s[i], rest, newline);
            lemma_both_contain(seq![s[i]], rest, '\n');
        }
    }
}

} // verus!
